//! The dominant palette: colors weighted by area are merged per RGB value, ordered by
//! weight, and picked greedily while they stay apart; every color is then snapped to
//! its nearest palette entry.

use vstd::prelude::*;
use crate::color::{Color, color_dist2, dist2, same_rgb, lemma_dist2_zero_iff_same_rgb};

verus! {

/// The index of the first palette entry nearest to `c` (`pal` must not be empty).
pub open spec fn nearest_index(pal: Seq<Color>, c: Color) -> int
    decreases pal.len(),
{
    if pal.len() <= 1 {
        0
    } else {
        let k = nearest_index(pal.drop_last(), c);
        if dist2(c, pal.last()) < dist2(c, pal[k]) {
            pal.len() - 1
        } else {
            k
        }
    }
}

/// `c` snapped to the palette: its first nearest entry, or `c` itself when the palette
/// is empty.
pub open spec fn snapped(c: Color, pal: Seq<Color>) -> Color {
    if pal.len() == 0 {
        c
    } else {
        pal[nearest_index(pal, c)]
    }
}

/// The nearest index is in range, no entry is nearer, and every earlier entry is farther.
pub proof fn lemma_nearest_index(pal: Seq<Color>, c: Color)
    requires
        pal.len() > 0,
    ensures
        0 <= nearest_index(pal, c) < pal.len(),
        forall|j: int| 0 <= j < pal.len() ==> dist2(c, pal[nearest_index(pal, c)]) <= dist2(c, #[trigger] pal[j]),
        forall|j: int| 0 <= j < nearest_index(pal, c) ==> dist2(c, pal[nearest_index(pal, c)]) < dist2(c, #[trigger] pal[j]),
    decreases pal.len(),
{
    if pal.len() > 1 {
        lemma_nearest_index(pal.drop_last(), c);
        let k = nearest_index(pal.drop_last(), c);
        assert forall|j: int| 0 <= j < pal.len() - 1 implies #[trigger] pal[j] == pal.drop_last()[j] by {}
    }
}

/// Snaps a color to the nearest entry of the palette (the first of several equally near
/// ones), by squared RGB distance; with an empty palette the color is kept.
pub fn snap_to_palette(color: Color, palette: &[Color]) -> (c: Color)
    ensures
        c == snapped(color, palette@),
        palette@.len() > 0 ==> palette@.contains(c),
        forall|j: int| 0 <= j < palette@.len() ==> dist2(color, c) <= dist2(color, #[trigger] palette@[j]),
        forall|j: int| 0 <= j < palette@.len() && same_rgb(color, #[trigger] palette@[j]) ==> same_rgb(c, color),
{
    let n = palette.len();
    if n == 0 {
        return color;
    }
    let mut best: usize = 0;
    let mut best_d: i32 = color_dist2(color, palette[0]);
    let mut i: usize = 1;
    while i < n
        invariant
            n == palette@.len(),
            1 <= i <= n,
            best == nearest_index(palette@.take(i as int), color),
            best < i,
            best_d == dist2(color, palette@[best as int]),
        decreases n - i,
    {
        let d = color_dist2(color, palette[i]);
        proof {
            let s = palette@.take(i + 1);
            assert(s.drop_last() =~= palette@.take(i as int));
            assert(s[best as int] == palette@[best as int]);
        }
        if d < best_d {
            best = i;
            best_d = d;
        }
        i = i + 1;
    }
    proof {
        assert(palette@.take(n as int) =~= palette@);
        lemma_nearest_index(palette@, color);
        let c = palette@[best as int];
        assert forall|j: int| 0 <= j < palette@.len() && same_rgb(color, #[trigger] palette@[j]) implies same_rgb(c, color) by {
            lemma_dist2_zero_iff_same_rgb(color, palette@[j]);
            lemma_dist2_zero_iff_same_rgb(color, c);
            lemma_dist2_zero_iff_same_rgb(c, color);
        }
    }
    palette[best]
}

/// The opaque color with the RGB channels of `c`.
pub open spec fn opaque(c: Color) -> Color {
    Color { r: c.r, g: c.g, b: c.b, a: 255 }
}

/// The total weight of the entries of `ws` whose color has the given RGB channels.
pub open spec fn rgb_total(ws: Seq<(Color, usize)>, r: u8, g: u8, b: u8) -> nat
    decreases ws.len(),
{
    if ws.len() == 0 {
        0
    } else {
        rgb_total(ws.drop_last(), r, g, b) + if ws.last().0.r == r && ws.last().0.g == g
            && ws.last().0.b == b {
            ws.last().1 as nat
        } else {
            0nat
        }
    }
}

/// The total weight of the entries of `ws` with the RGB channels of `c`.
pub open spec fn color_total(ws: Seq<(Color, usize)>, c: Color) -> nat {
    rgb_total(ws, c.r, c.g, c.b)
}

/// The index of the first entry of `t`, from `i` on, whose color has the RGB channels
/// of `c`, or -1.
pub open spec fn find_rgb_from(t: Seq<(Color, usize)>, c: Color, i: int) -> int
    decreases t.len() - i,
{
    if i < 0 || i >= t.len() {
        -1
    } else if same_rgb(t[i].0, c) {
        i
    } else {
        find_rgb_from(t, c, i + 1)
    }
}

/// Adds weight `w` for color `c` to per-color totals: to the entry with its RGB
/// channels, or as a new opaque entry at the end.
pub open spec fn add_weight(t: Seq<(Color, usize)>, c: Color, w: usize) -> Seq<(Color, usize)> {
    let k = find_rgb_from(t, c, 0);
    if k >= 0 {
        t.update(k, (t[k].0, (t[k].1 + w) as usize))
    } else {
        t.push((opaque(c), w))
    }
}

/// The total weight per RGB value, in the order in which each value first occurs.
pub open spec fn totals_of(ws: Seq<(Color, usize)>) -> Seq<(Color, usize)>
    decreases ws.len(),
{
    if ws.len() == 0 {
        Seq::empty()
    } else {
        add_weight(totals_of(ws.drop_last()), ws.last().0, ws.last().1)
    }
}

/// No RGB value's total weight exceeds `usize::MAX`.
pub open spec fn totals_fit(ws: Seq<(Color, usize)>) -> bool {
    forall|c: Color| #[trigger] color_total(ws, c) <= usize::MAX
}

proof fn lemma_find_rgb_from(t: Seq<(Color, usize)>, c: Color, i: int)
    requires
        0 <= i <= t.len(),
    ensures
        -1 <= find_rgb_from(t, c, i) < t.len(),
        find_rgb_from(t, c, i) == -1 ==> forall|j: int| i <= j < t.len() ==> !same_rgb(#[trigger] t[j].0, c),
        find_rgb_from(t, c, i) >= 0 ==> i <= find_rgb_from(t, c, i) && same_rgb(t[find_rgb_from(t, c, i)].0, c)
            && forall|j: int| i <= j < find_rgb_from(t, c, i) ==> !same_rgb(#[trigger] t[j].0, c),
    decreases t.len() - i,
{
    if i < t.len() && !same_rgb(t[i].0, c) {
        lemma_find_rgb_from(t, c, i + 1);
    }
}

proof fn lemma_rgb_total_prefix(ws: Seq<(Color, usize)>, i: int, r: u8, g: u8, b: u8)
    requires
        0 <= i <= ws.len(),
    ensures
        rgb_total(ws.take(i), r, g, b) <= rgb_total(ws, r, g, b),
    decreases ws.len() - i,
{
    if i < ws.len() {
        lemma_rgb_total_prefix(ws.drop_last(), i, r, g, b);
        assert(ws.drop_last().take(i) =~= ws.take(i));
    } else {
        assert(ws.take(i) =~= ws);
    }
}

proof fn lemma_rgb_total_absent(ws: Seq<(Color, usize)>, r: u8, g: u8, b: u8)
    requires
        forall|j: int| 0 <= j < ws.len() ==> !(#[trigger] ws[j].0.r == r && ws[j].0.g == g && ws[j].0.b == b),
    ensures
        rgb_total(ws, r, g, b) == 0,
    decreases ws.len(),
{
    if ws.len() > 0 {
        assert forall|j: int| 0 <= j < ws.len() - 1 implies !(#[trigger] ws.drop_last()[j].0.r == r
            && ws.drop_last()[j].0.g == g && ws.drop_last()[j].0.b == b) by {
            assert(ws.drop_last()[j] == ws[j]);
        }
        lemma_rgb_total_absent(ws.drop_last(), r, g, b);
    }
}

/// The per-color totals have one opaque entry per RGB value of `ws`, each carrying the
/// total weight of that value.
pub proof fn lemma_totals_of(ws: Seq<(Color, usize)>)
    requires
        totals_fit(ws),
    ensures
        forall|k1: int, k2: int|
            0 <= k1 < k2 < totals_of(ws).len() ==> !same_rgb(#[trigger] totals_of(ws)[k1].0, #[trigger] totals_of(ws)[k2].0),
        forall|k: int| 0 <= k < totals_of(ws).len() ==> (#[trigger] totals_of(ws)[k]).0.a == 255,
        forall|k: int|
            0 <= k < totals_of(ws).len() ==> (#[trigger] totals_of(ws)[k]).1 == color_total(ws, totals_of(ws)[k].0),
        forall|j: int| 0 <= j < ws.len() ==> find_rgb_from(totals_of(ws), #[trigger] ws[j].0, 0) >= 0,
        forall|k: int|
            0 <= k < totals_of(ws).len() ==> exists|j: int| 0 <= j < ws.len() && same_rgb(#[trigger] ws[j].0, (#[trigger] totals_of(ws)[k]).0),
    decreases ws.len(),
{
    if ws.len() > 0 {
        let ws0 = ws.drop_last();
        assert(totals_fit(ws0)) by {
            assert forall|c: Color| #[trigger] color_total(ws0, c) <= usize::MAX by {
                assert(ws0 =~= ws.take(ws.len() - 1));
                lemma_rgb_total_prefix(ws, ws.len() - 1, c.r, c.g, c.b);
                assert(color_total(ws, c) <= usize::MAX);
            }
        }
        lemma_totals_of(ws0);
        let t0 = totals_of(ws0);
        let (c, w) = ws.last();
        lemma_find_rgb_from(t0, c, 0);
        let k0 = find_rgb_from(t0, c, 0);
        let t = totals_of(ws);
        assert(t == add_weight(t0, c, w));
        assert(color_total(ws, c) <= usize::MAX);
        if k0 >= 0 {
            assert(t0[k0].1 + w == color_total(ws, c));
            assert forall|k: int| 0 <= k < t.len() implies (#[trigger] t[k]).1 == color_total(ws, t[k].0) by {
                if k != k0 {
                    assert(!same_rgb(t0[k].0, c));
                }
            }
            assert forall|j: int| 0 <= j < ws.len() implies find_rgb_from(t, #[trigger] ws[j].0, 0) >= 0 by {
                lemma_find_rgb_from(t, ws[j].0, 0);
                if j < ws.len() - 1 {
                    assert(ws[j] == ws0[j]);
                    lemma_find_rgb_from(t0, ws0[j].0, 0);
                    let kk = find_rgb_from(t0, ws0[j].0, 0);
                    assert(same_rgb(t[kk].0, ws[j].0));
                } else {
                    assert(same_rgb(t[k0].0, ws[j].0));
                }
            }
            assert forall|k: int| 0 <= k < t.len() implies exists|j: int|
                0 <= j < ws.len() && same_rgb(#[trigger] ws[j].0, (#[trigger] t[k]).0) by {
                let j = choose|j: int| 0 <= j < ws0.len() && same_rgb(#[trigger] ws0[j].0, t0[k].0);
                assert(ws[j] == ws0[j]);
            }
        } else {
            assert forall|j: int| 0 <= j < ws0.len() implies !(#[trigger] ws0[j].0.r == c.r && ws0[j].0.g == c.g
                && ws0[j].0.b == c.b) by {
                lemma_find_rgb_from(t0, ws0[j].0, 0);
                let kk = find_rgb_from(t0, ws0[j].0, 0);
                if ws0[j].0.r == c.r && ws0[j].0.g == c.g && ws0[j].0.b == c.b {
                    assert(same_rgb(t0[kk].0, c));
                }
            }
            lemma_rgb_total_absent(ws0, c.r, c.g, c.b);
            assert forall|k: int| 0 <= k < t.len() implies (#[trigger] t[k]).1 == color_total(ws, t[k].0) by {
                if k < t0.len() {
                    assert(t[k] == t0[k]);
                    assert(!same_rgb(t0[k].0, c));
                }
            }
            assert forall|j: int| 0 <= j < ws.len() implies find_rgb_from(t, #[trigger] ws[j].0, 0) >= 0 by {
                lemma_find_rgb_from(t, ws[j].0, 0);
                if j < ws.len() - 1 {
                    assert(ws[j] == ws0[j]);
                    lemma_find_rgb_from(t0, ws0[j].0, 0);
                    let kk = find_rgb_from(t0, ws0[j].0, 0);
                    assert(t[kk] == t0[kk]);
                    assert(same_rgb(t[kk].0, ws[j].0));
                } else {
                    assert(same_rgb(t[t.len() - 1].0, ws[j].0));
                }
            }
            assert forall|k: int| 0 <= k < t.len() implies exists|j: int|
                0 <= j < ws.len() && same_rgb(#[trigger] ws[j].0, (#[trigger] t[k]).0) by {
                if k < t0.len() {
                    assert(t[k] == t0[k]);
                    let j = choose|j: int| 0 <= j < ws0.len() && same_rgb(#[trigger] ws0[j].0, t0[k].0);
                    assert(ws[j] == ws0[j]);
                } else {
                    assert(same_rgb(ws[ws.len() - 1].0, t[k].0));
                }
            }
        }
    }
}

/// The index of the first entry of `t` with the RGB channels of `c`, if any.
fn find_rgb(t: &Vec<(Color, usize)>, c: Color) -> (k: Option<usize>)
    ensures
        match k {
            Some(k) => find_rgb_from(t@, c, 0) == k,
            None => find_rgb_from(t@, c, 0) == -1,
        },
{
    let n = t.len();
    let mut i: usize = 0;
    while i < n
        invariant
            n == t@.len(),
            i <= n,
            find_rgb_from(t@, c, 0) == find_rgb_from(t@, c, i as int),
        decreases n - i,
    {
        let e = t[i].0;
        if e.r == c.r && e.g == c.g && e.b == c.b {
            return Some(i);
        }
        i = i + 1;
    }
    None
}

/// Sums the weights per RGB value; each value gets one opaque entry, in the order in
/// which it first occurs. `None` when some value's total exceeds `usize::MAX`.
///
/// The totals are kept in a `Vec` searched in order rather than in a hash map: a hash
/// map's iteration order changes from process to process, and it would decide the
/// palette order of colors of equal weight. First occurrence fixes that order, and it is
/// one of the orders such a map can produce.
pub fn color_totals_checked(weighted: &[(Color, usize)]) -> (t: Option<Vec<(Color, usize)>>)
    ensures
        t is Some <==> totals_fit(weighted@),
        t matches Some(t) ==> t@ == totals_of(weighted@),
{
    let n = weighted.len();
    let mut t: Vec<(Color, usize)> = Vec::new();
    let mut i: usize = 0;
    assert(weighted@.take(0) =~= Seq::<(Color, usize)>::empty());
    while i < n
        invariant
            n == weighted@.len(),
            i <= n,
            totals_fit(weighted@.take(i as int)),
            t@ == totals_of(weighted@.take(i as int)),
        decreases n - i,
    {
        let (c, w) = weighted[i];
        let ghost pre = weighted@.take(i as int);
        let ghost post = weighted@.take(i + 1);
        proof {
            assert(post.drop_last() =~= pre);
            assert(post.last() == (c, w));
            lemma_totals_of(pre);
        }
        match find_rgb(&t, c) {
            Some(k) => {
                proof {
                    lemma_find_rgb_from(t@, c, 0);
                }
                let (key, old_w) = t[k];
                proof {
                    assert(old_w == color_total(pre, key));
                    assert(color_total(post, key) == old_w + w);
                }
                if old_w > usize::MAX - w {
                    proof {
                        lemma_rgb_total_prefix(weighted@, i + 1, key.r, key.g, key.b);
                        assert(color_total(weighted@, key) > usize::MAX);
                    }
                    return None;
                }
                proof {
                    assert forall|x: Color| #[trigger] color_total(post, x) <= usize::MAX by {
                        assert(color_total(pre, x) <= usize::MAX);
                    }
                }
                t.set(k, (key, old_w + w));
            },
            None => {
                proof {
                    lemma_find_rgb_from(t@, c, 0);
                    assert forall|j: int| 0 <= j < pre.len() implies !(#[trigger] pre[j].0.r == c.r && pre[j].0.g == c.g
                        && pre[j].0.b == c.b) by {
                        lemma_find_rgb_from(t@, pre[j].0, 0);
                        let kk = find_rgb_from(t@, pre[j].0, 0);
                        if pre[j].0.r == c.r && pre[j].0.g == c.g && pre[j].0.b == c.b {
                            assert(same_rgb(t@[kk].0, c));
                        }
                    }
                    lemma_rgb_total_absent(pre, c.r, c.g, c.b);
                    assert forall|x: Color| #[trigger] color_total(post, x) <= usize::MAX by {
                        assert(color_total(pre, x) <= usize::MAX);
                    }
                }
                t.push((Color::new(c.r, c.g, c.b), w));
            },
        }
        i = i + 1;
    }
    assert(weighted@.take(n as int) =~= weighted@);
    Some(t)
}

/// Sums the weights per RGB value; each value gets one opaque entry, in the order in
/// which it first occurs.
pub fn color_totals(weighted: &[(Color, usize)]) -> (t: Vec<(Color, usize)>)
    requires
        totals_fit(weighted@),
    ensures
        t@ == totals_of(weighted@),
{
    match color_totals_checked(weighted) {
        Some(t) => t,
        None => Vec::new(),
    }
}

/// Inserts `x` after the leading entries of `s` that weigh at least as much.
pub open spec fn insert_desc(s: Seq<(Color, usize)>, x: (Color, usize)) -> Seq<(Color, usize)>
    decreases s.len(),
{
    if s.len() == 0 {
        seq![x]
    } else if s[0].1 >= x.1 {
        seq![s[0]] + insert_desc(s.drop_first(), x)
    } else {
        seq![x] + s
    }
}

/// The entries by non-increasing weight, entries of equal weight in the order they had
/// order (a stable sort, as `sort_by_key` with `Reverse` does).
pub open spec fn sort_desc(s: Seq<(Color, usize)>) -> Seq<(Color, usize)>
    decreases s.len(),
{
    if s.len() == 0 {
        s
    } else {
        insert_desc(sort_desc(s.drop_last()), s.last())
    }
}

/// Inserting at the first position whose entry weighs less than `x` is `insert_desc`.
proof fn lemma_insert_desc_at(s: Seq<(Color, usize)>, x: (Color, usize), k: int)
    requires
        0 <= k <= s.len(),
        forall|i: int| 0 <= i < k ==> (#[trigger] s[i]).1 >= x.1,
        k == s.len() || s[k].1 < x.1,
    ensures
        insert_desc(s, x) == s.insert(k, x),
    decreases s.len(),
{
    if s.len() == 0 {
        assert(s.insert(k, x) =~= seq![x]);
    } else if k == 0 {
        assert(s.insert(k, x) =~= seq![x] + s);
    } else {
        let t = s.drop_first();
        assert forall|i: int| 0 <= i < k - 1 implies (#[trigger] t[i]).1 >= x.1 by {
            assert(t[i] == s[i + 1]);
        }
        lemma_insert_desc_at(t, x, k - 1);
        assert(s.insert(k, x) =~= seq![s[0]] + t.insert(k - 1, x));
    }
}

/// Orders per-color totals by non-increasing weight, keeping the order of equal weights.
pub fn sort_by_weight_desc(t: &Vec<(Color, usize)>) -> (s: Vec<(Color, usize)>)
    ensures
        s@ == sort_desc(t@),
{
    let n = t.len();
    let mut s: Vec<(Color, usize)> = Vec::new();
    let mut i: usize = 0;
    assert(t@.take(0) =~= Seq::<(Color, usize)>::empty());
    while i < n
        invariant
            n == t@.len(),
            i <= n,
            s@ == sort_desc(t@.take(i as int)),
        decreases n - i,
    {
        let x = t[i];
        let m = s.len();
        let mut k: usize = 0;
        while k < m && s[k].1 >= x.1
            invariant
                m == s@.len(),
                k <= m,
                forall|j: int| 0 <= j < k ==> (#[trigger] s@[j]).1 >= x.1,
            decreases m - k,
        {
            k = k + 1;
        }
        proof {
            lemma_insert_desc_at(s@, x, k as int);
            assert(t@.take(i + 1).drop_last() =~= t@.take(i as int));
            assert(t@.take(i + 1).last() == x);
        }
        s.insert(k, x);
        i = i + 1;
    }
    assert(t@.take(n as int) =~= t@);
    s
}

/// `c` is farther than `thr` (squared RGB distance) from every palette entry.
pub open spec fn far_from_all(pal: Seq<Color>, c: Color, thr: int) -> bool {
    forall|i: int| 0 <= i < pal.len() ==> dist2(c, #[trigger] pal[i]) > thr
}

/// One greedy step: `c` joins the palette when there is room and it is far from every entry.
pub open spec fn greedy_step(pal: Seq<Color>, c: Color, max: nat, thr: int) -> Seq<Color> {
    if pal.len() < max && far_from_all(pal, c, thr) {
        pal.push(c)
    } else {
        pal
    }
}

/// The palette picked greedily from weighted colors in order.
pub open spec fn greedy(s: Seq<(Color, usize)>, max: nat, thr: int) -> Seq<Color>
    decreases s.len(),
{
    if s.len() == 0 {
        Seq::empty()
    } else {
        greedy_step(greedy(s.drop_last(), max, thr), s.last().0, max, thr)
    }
}

/// The dominant palette of weighted colors: greedy choice, over the per-RGB totals
/// ordered by non-increasing weight.
pub open spec fn dominant(ws: Seq<(Color, usize)>, max: nat, thr: int) -> Seq<Color> {
    greedy(sort_desc(totals_of(ws)), max, thr)
}

/// Whether `c` is farther than `thr` from every color of `pal`.
fn is_far_from_all(pal: &Vec<Color>, c: Color, thr: i32) -> (b: bool)
    ensures
        b == far_from_all(pal@, c, thr as int),
{
    let n = pal.len();
    let mut i: usize = 0;
    while i < n
        invariant
            n == pal@.len(),
            i <= n,
            forall|j: int| 0 <= j < i ==> dist2(c, #[trigger] pal@[j]) > thr,
        decreases n - i,
    {
        if color_dist2(c, pal[i]) <= thr {
            return false;
        }
        i = i + 1;
    }
    true
}

/// The entries' weights never increase along the sequence.
pub open spec fn sorted_desc(s: Seq<(Color, usize)>) -> bool {
    forall|i: int, j: int| 0 <= i < j < s.len() ==> (#[trigger] s[i]).1 >= (#[trigger] s[j]).1
}

proof fn lemma_insert_desc(s: Seq<(Color, usize)>, x: (Color, usize))
    ensures
        insert_desc(s, x).to_multiset() == s.to_multiset().insert(x),
        sorted_desc(s) ==> sorted_desc(insert_desc(s, x)),
        insert_desc(s, x).len() == s.len() + 1,
        s.len() > 0 ==> insert_desc(s, x)[0] == s[0] || insert_desc(s, x)[0] == x,
    decreases s.len(),
{
    broadcast use vstd::seq_lib::lemma_multiset_commutative;
    broadcast use vstd::seq_lib::group_to_multiset_ensures;
    broadcast use vstd::multiset::group_multiset_axioms;
    if s.len() == 0 {
        assert(seq![x] =~= Seq::<(Color, usize)>::empty().push(x));
    } else if s[0].1 >= x.1 {
        let t = s.drop_first();
        lemma_insert_desc(t, x);
        assert(s =~= seq![s[0]] + t);
        assert(seq![s[0]] =~= Seq::<(Color, usize)>::empty().push(s[0]));
        assert(insert_desc(s, x).to_multiset() =~= s.to_multiset().insert(x));
        if sorted_desc(s) {
            let r = insert_desc(s, x);
            let rt = insert_desc(t, x);
            assert(sorted_desc(t)) by {
                assert forall|i: int, j: int| 0 <= i < j < t.len() implies (#[trigger] t[i]).1 >= (#[trigger] t[j]).1 by {
                    assert(t[i] == s[i + 1] && t[j] == s[j + 1]);
                }
            }
            assert forall|i: int, j: int| 0 <= i < j < r.len() implies (#[trigger] r[i]).1 >= (#[trigger] r[j]).1 by {
                if i == 0 {
                    assert(r[j] == rt[j - 1]);
                    assert(rt.to_multiset().count(rt[j - 1]) > 0);
                    assert(t.to_multiset().insert(x).count(rt[j - 1]) > 0);
                    if rt[j - 1] != x {
                        assert(t.to_multiset().count(rt[j - 1]) > 0);
                        assert(t.contains(rt[j - 1]));
                        let m = choose|m: int| 0 <= m < t.len() && t[m] == rt[j - 1];
                        assert(s[m + 1] == t[m]);
                    }
                } else {
                    assert(r[i] == rt[i - 1] && r[j] == rt[j - 1]);
                }
            }
        }
    } else {
        assert(insert_desc(s, x) == seq![x] + s);
        assert(seq![x] =~= Seq::<(Color, usize)>::empty().push(x));
        assert(insert_desc(s, x).to_multiset() =~= s.to_multiset().insert(x));
        if sorted_desc(s) {
            let r = insert_desc(s, x);
            assert forall|i: int, j: int| 0 <= i < j < r.len() implies (#[trigger] r[i]).1 >= (#[trigger] r[j]).1 by {
                if i == 0 {
                    assert(r[j] == s[j - 1]);
                    assert(s[0].1 >= s[j - 1].1);
                } else {
                    assert(r[i] == s[i - 1] && r[j] == s[j - 1]);
                }
            }
        }
    }
}

/// The sort is a permutation whose weights never increase.
pub proof fn lemma_sort_desc(s: Seq<(Color, usize)>)
    ensures
        sort_desc(s).to_multiset() == s.to_multiset(),
        sorted_desc(sort_desc(s)),
        sort_desc(s).len() == s.len(),
    decreases s.len(),
{
    broadcast use vstd::seq_lib::group_to_multiset_ensures;
    if s.len() > 0 {
        lemma_sort_desc(s.drop_last());
        lemma_insert_desc(sort_desc(s.drop_last()), s.last());
        assert(s =~= s.drop_last().push(s.last()));
    }
}

/// What greedy choice keeps: room, separation, provenance, and that every color of the
/// input is taken, near a taken one, or met a full palette.
proof fn lemma_greedy(s: Seq<(Color, usize)>, max: nat, thr: int)
    ensures
        greedy(s, max, thr).len() <= max,
        forall|i: int, j: int|
            0 <= i < j < greedy(s, max, thr).len() ==> dist2(#[trigger] greedy(s, max, thr)[j], #[trigger] greedy(s, max, thr)[i]) > thr,
        forall|i: int|
            0 <= i < greedy(s, max, thr).len() ==> exists|k: int| 0 <= k < s.len() && #[trigger] greedy(s, max, thr)[i] == (#[trigger] s[k]).0,
        forall|k: int|
            0 <= k < s.len() ==> greedy(s, max, thr).len() == max || exists|i: int|
                0 <= i < greedy(s, max, thr).len() && (#[trigger] greedy(s, max, thr)[i] == (#[trigger] s[k]).0 || dist2(s[k].0, greedy(s, max, thr)[i]) <= thr),
    decreases s.len(),
{
    if s.len() > 0 {
        let s0 = s.drop_last();
        lemma_greedy(s0, max, thr);
        let g0 = greedy(s0, max, thr);
        let g = greedy(s, max, thr);
        let c = s.last().0;
        assert(g == greedy_step(g0, c, max, thr));
        assert forall|i: int| 0 <= i < g0.len() implies #[trigger] g[i] == g0[i] by {}
        assert forall|i: int| 0 <= i < g.len() implies exists|k: int| 0 <= k < s.len() && #[trigger] g[i] == (#[trigger] s[k]).0 by {
            if i < g0.len() {
                let k = choose|k: int| 0 <= k < s0.len() && #[trigger] g0[i] == (#[trigger] s0[k]).0;
                assert(s[k] == s0[k]);
            } else {
                assert(g[i] == s[s.len() - 1].0);
            }
        }
        assert forall|k: int| 0 <= k < s.len() implies g.len() == max || exists|i: int|
            0 <= i < g.len() && (#[trigger] g[i] == (#[trigger] s[k]).0 || dist2(s[k].0, g[i]) <= thr) by {
            if k < s0.len() {
                assert(s[k] == s0[k]);
                if g0.len() != max {
                    let i = choose|i: int| 0 <= i < g0.len() && (#[trigger] g0[i] == (#[trigger] s0[k]).0 || dist2(s0[k].0, g0[i]) <= thr);
                    assert(g[i] == g0[i]);
                }
            } else {
                if g0.len() < max && far_from_all(g0, c, thr) {
                    assert(g[g.len() - 1] == s[k].0);
                } else if g0.len() < max {
                    let i = choose|i: int| 0 <= i < g0.len() && !(dist2(c, #[trigger] g0[i]) > thr);
                    assert(g[i] == g0[i]);
                }
            }
        }
    }
}

/// Weights carried by `s` are the totals of their colors in `ws`, and the greedy palette
/// of a sequence sorted by weight lists its colors by non-increasing total.
proof fn lemma_greedy_weight_order(s: Seq<(Color, usize)>, ws: Seq<(Color, usize)>, max: nat, thr: int)
    requires
        sorted_desc(s),
        forall|k: int| 0 <= k < s.len() ==> (#[trigger] s[k]).1 == color_total(ws, s[k].0),
    ensures
        forall|i: int, j: int|
            0 <= i < j < greedy(s, max, thr).len() ==> color_total(ws, #[trigger] greedy(s, max, thr)[i]) >= color_total(ws, #[trigger] greedy(s, max, thr)[j]),
    decreases s.len(),
{
    if s.len() > 0 {
        let s0 = s.drop_last();
        assert(sorted_desc(s0)) by {
            assert forall|i: int, j: int| 0 <= i < j < s0.len() implies (#[trigger] s0[i]).1 >= (#[trigger] s0[j]).1 by {
                assert(s0[i] == s[i] && s0[j] == s[j]);
            }
        }
        assert forall|k: int| 0 <= k < s0.len() implies (#[trigger] s0[k]).1 == color_total(ws, s0[k].0) by {
            assert(s0[k] == s[k]);
        }
        lemma_greedy_weight_order(s0, ws, max, thr);
        lemma_greedy(s0, max, thr);
        let g0 = greedy(s0, max, thr);
        let g = greedy(s, max, thr);
        let x = s.last();
        assert forall|i: int, j: int| 0 <= i < j < g.len() implies color_total(ws, #[trigger] g[i]) >= color_total(ws, #[trigger] g[j]) by {
            assert(g[i] == g0[i]);
            if j < g0.len() {
                assert(g[j] == g0[j]);
            } else {
                let k = choose|k: int| 0 <= k < s0.len() && #[trigger] g0[i] == (#[trigger] s0[k]).0;
                assert(s0[k] == s[k]);
                assert(s[k].1 >= s[s.len() - 1].1);
                assert(g[j] == x.0);
            }
        }
    }
}

/// The laws of the dominant palette of weighted colors `ws`: it holds at most `max`
/// colors; any two of them are farther apart than `thr`; each is opaque and is the RGB
/// value of some input; they come by non-increasing total weight; and every input color
/// is in it (by RGB) or within `thr` of one of its colors, unless the palette is full.
pub proof fn lemma_dominant_palette_laws(ws: Seq<(Color, usize)>, max: nat, thr: int)
    requires
        totals_fit(ws),
    ensures
        dominant(ws, max, thr).len() <= max,
        forall|i: int, j: int|
            0 <= i < j < dominant(ws, max, thr).len() ==> dist2(#[trigger] dominant(ws, max, thr)[i], #[trigger] dominant(ws, max, thr)[j]) > thr,
        forall|i: int|
            0 <= i < dominant(ws, max, thr).len() ==> (#[trigger] dominant(ws, max, thr)[i]).a == 255 && exists|j: int|
                0 <= j < ws.len() && same_rgb(#[trigger] ws[j].0, dominant(ws, max, thr)[i]),
        forall|i: int, j: int|
            0 <= i < j < dominant(ws, max, thr).len() ==> color_total(ws, #[trigger] dominant(ws, max, thr)[i]) >= color_total(ws, #[trigger] dominant(ws, max, thr)[j]),
        forall|j: int|
            0 <= j < ws.len() ==> dominant(ws, max, thr).len() == max || exists|i: int|
                0 <= i < dominant(ws, max, thr).len() && (same_rgb(#[trigger] dominant(ws, max, thr)[i], #[trigger] ws[j].0) || dist2(ws[j].0, dominant(ws, max, thr)[i]) <= thr),
{
    broadcast use vstd::seq_lib::group_to_multiset_ensures;
    let t = totals_of(ws);
    let s = sort_desc(t);
    let g = dominant(ws, max, thr);
    lemma_totals_of(ws);
    lemma_sort_desc(t);
    lemma_greedy(s, max, thr);
    assert forall|k: int| 0 <= k < s.len() implies t.contains(#[trigger] s[k]) by {
        assert(s.to_multiset().count(s[k]) > 0);
    }
    assert forall|k: int| 0 <= k < s.len() implies (#[trigger] s[k]).1 == color_total(ws, s[k].0) by {
        assert(t.contains(s[k]));
        let m = choose|m: int| 0 <= m < t.len() && t[m] == s[k];
    }
    lemma_greedy_weight_order(s, ws, max, thr);
    assert forall|i: int, j: int| 0 <= i < j < g.len() implies dist2(#[trigger] g[i], #[trigger] g[j]) > thr by {
        lemma_dist2_zero_iff_same_rgb(g[i], g[j]);
    }
    assert forall|i: int| 0 <= i < g.len() implies (#[trigger] g[i]).a == 255 && exists|j: int|
        0 <= j < ws.len() && same_rgb(#[trigger] ws[j].0, g[i]) by {
        let k = choose|k: int| 0 <= k < s.len() && #[trigger] g[i] == (#[trigger] s[k]).0;
        assert(t.contains(s[k]));
        let m = choose|m: int| 0 <= m < t.len() && t[m] == s[k];
        assert(t[m].0.a == 255);
        let j = choose|j: int| 0 <= j < ws.len() && same_rgb(#[trigger] ws[j].0, t[m].0);
    }
    assert forall|j: int| 0 <= j < ws.len() implies g.len() == max || exists|i: int|
        0 <= i < g.len() && (same_rgb(#[trigger] g[i], #[trigger] ws[j].0) || dist2(ws[j].0, g[i]) <= thr) by {
        lemma_find_rgb_from(t, ws[j].0, 0);
        let m = find_rgb_from(t, ws[j].0, 0);
        assert(s.to_multiset().count(t[m]) > 0);
        assert(s.contains(t[m]));
        let k = choose|k: int| 0 <= k < s.len() && s[k] == t[m];
        if g.len() != max {
            let i = choose|i: int| 0 <= i < g.len() && (#[trigger] g[i] == (#[trigger] s[k]).0 || dist2(s[k].0, g[i]) <= thr);
            assert(same_rgb(g[i], ws[j].0) || dist2(ws[j].0, g[i]) <= thr);
        }
    }
}

/// Once the palette is full, later colors leave it as it is.
proof fn lemma_greedy_full(s: Seq<(Color, usize)>, i: int, max: nat, thr: int)
    requires
        0 <= i <= s.len(),
        greedy(s.take(i), max, thr).len() >= max,
    ensures
        greedy(s, max, thr) == greedy(s.take(i), max, thr),
    decreases s.len(),
{
    if i == s.len() {
        assert(s.take(i) =~= s);
    } else {
        assert(s.drop_last().take(i) =~= s.take(i));
        lemma_greedy_full(s.drop_last(), i, max, thr);
    }
}

/// Builds a small dominant palette from colors weighted by area: the weights are summed
/// per RGB value, the values are taken by non-increasing total weight, and each one joins
/// the palette while there is room (`max_colors`) and its squared RGB distance to every
/// color already taken exceeds `merge_threshold`.
pub fn dominant_palette(weighted: &[(Color, usize)], max_colors: usize, merge_threshold: i32) -> (palette: Vec<Color>)
    requires
        totals_fit(weighted@),
    ensures
        palette@ == dominant(weighted@, max_colors as nat, merge_threshold as int),
        palette@.len() <= max_colors,
        forall|i: int, j: int|
            0 <= i < j < palette@.len() ==> dist2(#[trigger] palette@[i], #[trigger] palette@[j]) > merge_threshold,
        forall|i: int|
            0 <= i < palette@.len() ==> (#[trigger] palette@[i]).a == 255 && exists|j: int|
                0 <= j < weighted@.len() && same_rgb(#[trigger] weighted@[j].0, palette@[i]),
        forall|i: int, j: int|
            0 <= i < j < palette@.len() ==> color_total(weighted@, #[trigger] palette@[i]) >= color_total(weighted@, #[trigger] palette@[j]),
        forall|j: int|
            0 <= j < weighted@.len() ==> palette@.len() == max_colors || exists|i: int|
                0 <= i < palette@.len() && (same_rgb(#[trigger] palette@[i], #[trigger] weighted@[j].0) || dist2(weighted@[j].0, palette@[i]) <= merge_threshold),
{
    let totals = color_totals(weighted);
    let sorted = sort_by_weight_desc(&totals);
    let n = sorted.len();
    let mut palette: Vec<Color> = Vec::new();
    let mut i: usize = 0;
    assert(sorted@.take(0) =~= Seq::<(Color, usize)>::empty());
    assert(sorted@.take(n as int) =~= sorted@);
    while i < n
        invariant
            n == sorted@.len(),
            sorted@ == sort_desc(totals_of(weighted@)),
            sorted@.take(n as int) == sorted@,
            i <= n,
            palette@ == greedy(sorted@.take(i as int), max_colors as nat, merge_threshold as int),
        ensures
            palette@ == greedy(sorted@, max_colors as nat, merge_threshold as int),
        decreases n - i,
    {
        if palette.len() >= max_colors {
            proof {
                lemma_greedy_full(sorted@, i as int, max_colors as nat, merge_threshold as int);
            }
            break;
        }
        let c = sorted[i].0;
        proof {
            assert(sorted@.take(i + 1).drop_last() =~= sorted@.take(i as int));
        }
        if is_far_from_all(&palette, c, merge_threshold) {
            palette.push(c);
        }
        i = i + 1;
    }
    proof {
        lemma_dominant_palette_laws(weighted@, max_colors as nat, merge_threshold as int);
    }
    palette
}

} // verus!
