//! Index and text work on contour path data: splitting a closed contour into spans
//! between its corners, and replacing the last coordinate pair of a path-data string.

use vstd::prelude::*;

verus! {

/// The indices below `n` whose corner flag is set, in increasing order.
pub open spec fn corner_indices(corner: Seq<bool>, n: int) -> Seq<usize>
    decreases n,
{
    if n <= 0 {
        Seq::empty()
    } else if corner[n - 1] {
        corner_indices(corner, n - 1).push((n - 1) as usize)
    } else {
        corner_indices(corner, n - 1)
    }
}

/// The number of steps from index `a` forward to index `b` around a closed contour of
/// `n` points.
pub open spec fn cyclic_gap(a: int, b: int, n: int) -> int {
    if a <= b {
        b - a
    } else {
        b - a + n
    }
}

/// The indices from `a` forward to `b` around a closed contour of `n` points, both ends
/// included (`[a]` alone when `a == b`).
pub open spec fn cyclic_run(a: int, b: int, n: int) -> Seq<usize> {
    Seq::new((cyclic_gap(a, b, n) + 1) as nat, |t: int| (if a + t < n { a + t } else { a + t - n }) as usize)
}

/// The spans of a closed contour of `n` points: with no corner, one span over every
/// point and back to the first; otherwise one span from each corner to the next one
/// (the last corner wrapping round to the first).
pub open spec fn corner_spans_spec(corner: Seq<bool>, n: int) -> Seq<Seq<usize>> {
    let ci = corner_indices(corner, n);
    if ci.len() == 0 {
        seq![Seq::new(n as nat, |i: int| i as usize).push(0)]
    } else {
        Seq::new(ci.len(), |w: int| cyclic_run(ci[w] as int, ci[(w + 1) % (ci.len() as int)] as int, n))
    }
}

proof fn lemma_corner_indices(corner: Seq<bool>, n: int)
    requires
        0 <= n <= corner.len(),
        n <= usize::MAX,
    ensures
        forall|w: int| 0 <= w < corner_indices(corner, n).len() ==> 0 <= #[trigger] corner_indices(corner, n)[w] < n,
        forall|w: int| 0 <= w < corner_indices(corner, n).len() ==> corner[#[trigger] corner_indices(corner, n)[w] as int],
        forall|v: int, w: int|
            0 <= v < w < corner_indices(corner, n).len() ==> #[trigger] corner_indices(corner, n)[v] < #[trigger] corner_indices(corner, n)[w],
        forall|i: int| 0 <= i < n && corner[i] ==> corner_indices(corner, n).contains(i as usize),
    decreases n,
{
    if n > 0 {
        lemma_corner_indices(corner, n - 1);
        let c0 = corner_indices(corner, n - 1);
        assert forall|i: int| 0 <= i < n && corner[i] implies corner_indices(corner, n).contains(i as usize) by {
            if i < n - 1 {
                let w = choose|w: int| 0 <= w < c0.len() && c0[w] == i as usize;
                if corner[n - 1] {
                    assert(corner_indices(corner, n)[w] == c0[w]);
                }
            } else {
                assert(corner_indices(corner, n)[c0.len() as int] == (n - 1) as usize);
            }
        }
    }
}

/// The indices, in order, of the flagged points among the first `n`.
fn corner_index_list(corner: &[bool], n: usize) -> (ci: Vec<usize>)
    requires
        n <= corner@.len(),
    ensures
        ci@ == corner_indices(corner@, n as int),
{
    let mut ci: Vec<usize> = Vec::new();
    let mut i: usize = 0;
    while i < n
        invariant
            n <= corner@.len(),
            i <= n,
            ci@ == corner_indices(corner@, i as int),
        decreases n - i,
    {
        if corner[i] {
            ci.push(i);
        }
        i = i + 1;
    }
    ci
}

/// The indices from `a` forward to `b` around a closed contour of `n` points.
fn cyclic_run_exec(a: usize, b: usize, n: usize) -> (span: Vec<usize>)
    requires
        a < n,
        b < n,
    ensures
        span@ == cyclic_run(a as int, b as int, n as int),
{
    let ghost gap = cyclic_gap(a as int, b as int, n as int);
    let mut span: Vec<usize> = Vec::new();
    let mut i: usize = a;
    let ghost mut t: int = 0;
    loop
        invariant_except_break
            a < n,
            b < n,
            gap == cyclic_gap(a as int, b as int, n as int),
            0 <= t <= gap,
            i < n,
            i == (if a + t < n { a + t } else { a + t - n }),
            span@ == cyclic_run(a as int, b as int, n as int).take(t),
        ensures
            span@ == cyclic_run(a as int, b as int, n as int),
        decreases gap - t,
    {
        span.push(i);
        proof {
            assert(span@ =~= cyclic_run(a as int, b as int, n as int).take(t + 1));
        }
        if i == b {
            proof {
                assert(t == gap);
                assert(cyclic_run(a as int, b as int, n as int).take(t + 1) =~= cyclic_run(a as int, b as int, n as int));
            }
            break;
        }
        proof {
            assert(t < gap);
        }
        i = if i + 1 == n { 0 } else { i + 1 };
        proof {
            t = t + 1;
        }
    }
    span
}

/// Splits a closed contour of `n` points at its corners (`corner[i]` flags point `i`):
/// with no corner, one span over every point and back to the first; otherwise, for each
/// corner in turn, the span of indices from it forward to the next corner, the last one
/// wrapping round to the first (a single corner gives the span holding it alone).
pub fn corner_spans(n: usize, corner: &[bool]) -> (spans: Vec<Vec<usize>>)
    requires
        n <= corner@.len(),
    ensures
        spans@.len() == corner_spans_spec(corner@, n as int).len(),
        forall|w: int| 0 <= w < spans@.len() ==> (#[trigger] spans@[w])@ == corner_spans_spec(corner@, n as int)[w],
{
    let ci = corner_index_list(corner, n);
    proof {
        lemma_corner_indices(corner@, n as int);
    }
    let m = ci.len();
    if m == 0 {
        let mut v: Vec<usize> = Vec::new();
        let mut i: usize = 0;
        while i < n
            invariant
                i <= n,
                v@ == Seq::new(i as nat, |j: int| j as usize),
            decreases n - i,
        {
            v.push(i);
            i = i + 1;
            assert(v@ =~= Seq::new(i as nat, |j: int| j as usize));
        }
        v.push(0);
        let mut out: Vec<Vec<usize>> = Vec::new();
        out.push(v);
        proof {
            assert(out@[0]@ =~= corner_spans_spec(corner@, n as int)[0]);
        }
        out
    } else {
        let mut out: Vec<Vec<usize>> = Vec::new();
        let mut w: usize = 0;
        while w < m
            invariant
                n <= corner@.len(),
                m == ci@.len(),
                m > 0,
                ci@ == corner_indices(corner@, n as int),
                forall|v: int| 0 <= v < m ==> 0 <= #[trigger] ci@[v] < n,
                w <= m,
                out@.len() == w,
                forall|v: int| 0 <= v < w ==> (#[trigger] out@[v])@ == corner_spans_spec(corner@, n as int)[v],
            decreases m - w,
        {
            let a = ci[w];
            let b = ci[(w + 1) % m];
            let span = cyclic_run_exec(a, b, n);
            out.push(span);
            w = w + 1;
        }
        out
    }
}

/// Point `i` is one of the indices of some span.
pub open spec fn in_some_span(spans: Seq<Seq<usize>>, i: int) -> bool {
    exists|w: int, t: int| 0 <= w < spans.len() && 0 <= t < spans[w].len() && #[trigger] spans[w][t] == i
}

/// The last position `w >= v` of a strictly increasing sequence whose entry is at most `i`.
proof fn lemma_last_at_most(ci: Seq<usize>, i: int, v: int) -> (w: int)
    requires
        0 <= v < ci.len(),
        ci[v] <= i,
        forall|a: int, b: int| 0 <= a < b < ci.len() ==> #[trigger] ci[a] < #[trigger] ci[b],
    ensures
        v <= w < ci.len(),
        ci[w] <= i,
        w == ci.len() - 1 || ci[w + 1] > i,
    decreases ci.len() - v,
{
    if v + 1 < ci.len() && ci[v + 1] <= i {
        lemma_last_at_most(ci, i, v + 1)
    } else {
        v
    }
}

/// The position after `w` in a cyclic list of `m` entries.
proof fn lemma_next_position(w: int, m: int)
    requires
        0 <= w < m,
    ensures
        w < m - 1 ==> (w + 1) % m == w + 1,
        w == m - 1 ==> (w + 1) % m == 0,
        0 <= (w + 1) % m < m,
{
    if w < m - 1 {
        vstd::arithmetic::div_mod::lemma_small_mod((w + 1) as nat, m as nat);
    } else {
        vstd::arithmetic::div_mod::lemma_mod_self_0(m);
    }
}

/// One span with corners: it runs from a corner to the next one, has no corner strictly
/// inside, and ends where the next span starts.
proof fn lemma_corner_span_shape(corner: Seq<bool>, n: int, w: int)
    requires
        0 < n <= corner.len(),
        n <= usize::MAX,
        corner_indices(corner, n).len() > 0,
        0 <= w < corner_indices(corner, n).len(),
    ensures
        ({
            let sps = corner_spans_spec(corner, n);
            let sp = sps[w];
            let m = sps.len() as int;
            &&& corner[sp[0] as int]
            &&& corner[sp.last() as int]
            &&& sp.last() == sps[(w + 1) % m][0]
            &&& forall|t: int| 0 < t < sp.len() - 1 ==> !corner[#[trigger] sp[t] as int]
        }),
{
    lemma_corner_indices(corner, n);
    let ci = corner_indices(corner, n);
    let sps = corner_spans_spec(corner, n);
    let m = ci.len() as int;
    lemma_next_position(w, m);
    let sp = sps[w];
    let a = ci[w] as int;
    let b = ci[(w + 1) % m] as int;
    assert(sp == cyclic_run(a, b, n));
    assert(sps[(w + 1) % m][0] == b);
    assert forall|t: int| 0 < t < sp.len() - 1 implies !corner[#[trigger] sp[t] as int] by {
        let j = sp[t] as int;
        if corner[j] {
            assert(ci.contains(j as usize));
            let v = choose|v: int| 0 <= v < m && ci[v] == j as usize;
            if w < m - 1 {
                assert(ci[w] < ci[w + 1]);
                if v < w {
                    assert(ci[v] < ci[w]);
                } else if v > w + 1 {
                    assert(ci[w + 1] < ci[v]);
                }
            } else if m > 1 {
                assert(ci[0] < ci[m - 1]);
                if v < m - 1 {
                    assert(ci[v] < ci[m - 1]);
                }
                if v > 0 {
                    assert(ci[0] < ci[v]);
                }
            }
        }
    }
}

/// With no corner or at least two, point `i` lies in some span.
proof fn lemma_corner_span_coverage(corner: Seq<bool>, n: int, i: int)
    requires
        0 < n <= corner.len(),
        n <= usize::MAX,
        corner_indices(corner, n).len() != 1,
        0 <= i < n,
    ensures
        in_some_span(corner_spans_spec(corner, n), i),
{
    lemma_corner_indices(corner, n);
    let ci = corner_indices(corner, n);
    let sps = corner_spans_spec(corner, n);
    let m = ci.len() as int;
    if m == 0 {
        assert(sps[0][i] == i);
    } else {
        assert(ci[0] < ci[m - 1]);
        if i < ci[0] {
            let w = m - 1;
            lemma_next_position(w, m);
            let t = i + n - ci[m - 1];
            assert(sps[w][t] == i);
        } else {
            let w = lemma_last_at_most(ci, i, 0);
            lemma_next_position(w, m);
            let t = i - ci[w];
            if w < m - 1 {
                assert(ci[w] < ci[w + 1]);
            }
            assert(sps[w][t] == i);
        }
    }
}

/// The laws of corner spans over `n` points: every span is non-empty and stays within
/// the contour; when there are corners, each span runs from a corner to the next one, the
/// points strictly inside a span are not corners, and each span ends where the next one
/// (cyclically) starts; and, unless there is exactly one corner, every point lies in
/// some span.
#[verifier::spinoff_prover]
pub proof fn lemma_corner_spans_laws(corner: Seq<bool>, n: int)
    requires
        0 < n <= corner.len(),
        n <= usize::MAX,
    ensures
        forall|w: int| 0 <= w < corner_spans_spec(corner, n).len() ==> (#[trigger] corner_spans_spec(corner, n)[w]).len() >= 1,
        forall|w: int, t: int|
            0 <= w < corner_spans_spec(corner, n).len() && 0 <= t < corner_spans_spec(corner, n)[w].len() ==> #[trigger] corner_spans_spec(corner, n)[w][t] < n,
        corner_indices(corner, n).len() > 0 ==> forall|w: int|
            0 <= w < corner_spans_spec(corner, n).len() ==> {
                let sp = #[trigger] corner_spans_spec(corner, n)[w];
                let m = corner_spans_spec(corner, n).len() as int;
                &&& corner[sp[0] as int]
                &&& corner[sp.last() as int]
                &&& sp.last() == corner_spans_spec(corner, n)[(w + 1) % m][0]
                &&& forall|t: int| 0 < t < sp.len() - 1 ==> !corner[#[trigger] sp[t] as int]
            },
        corner_indices(corner, n).len() != 1 ==> forall|i: int|
            0 <= i < n ==> #[trigger] in_some_span(corner_spans_spec(corner, n), i),
{
    let ci = corner_indices(corner, n);
    let sps = corner_spans_spec(corner, n);
    let m = ci.len() as int;
    assert forall|w: int| 0 <= w < sps.len() implies (#[trigger] sps[w]).len() >= 1 by {
        lemma_corner_span_bounds(corner, n, w);
    }
    if m > 0 {
        assert forall|w: int| 0 <= w < sps.len() implies {
            let sp = #[trigger] sps[w];
            &&& corner[sp[0] as int]
            &&& corner[sp.last() as int]
            &&& sp.last() == sps[(w + 1) % m][0]
            &&& forall|t: int| 0 < t < sp.len() - 1 ==> !corner[#[trigger] sp[t] as int]
        } by {
            lemma_corner_span_shape(corner, n, w);
        }
    }
    if m != 1 {
        assert forall|i: int| 0 <= i < n implies #[trigger] in_some_span(sps, i) by {
            lemma_corner_span_coverage(corner, n, i);
        }
    }
    assert forall|w: int, t: int| 0 <= w < sps.len() && 0 <= t < sps[w].len() implies #[trigger] sps[w][t] < n by {
        lemma_corner_span_bounds(corner, n, w);
    }
}

/// Every index of a span lies within the contour.
proof fn lemma_corner_span_bounds(corner: Seq<bool>, n: int, w: int)
    requires
        0 < n <= corner.len(),
        n <= usize::MAX,
        0 <= w < corner_spans_spec(corner, n).len(),
    ensures
        forall|t: int| 0 <= t < corner_spans_spec(corner, n)[w].len() ==> #[trigger] corner_spans_spec(corner, n)[w][t] < n,
        corner_spans_spec(corner, n)[w].len() >= 1,
{
    lemma_corner_indices(corner, n);
    let m = corner_indices(corner, n).len() as int;
    if m > 0 {
        lemma_next_position(w, m);
    }
}

/// A character that can belong to a number in path data: an ASCII digit, `.` or `-`.
pub open spec fn is_num_char(c: char) -> bool {
    ('0' <= c && c <= '9') || c == '.' || c == '-'
}

/// Steps back over the spaces that end `s[..i]`.
pub open spec fn skip_spaces(s: Seq<char>, i: int) -> int
    decreases i,
{
    if i > 0 && i <= s.len() && s[i - 1] == ' ' {
        skip_spaces(s, i - 1)
    } else {
        i
    }
}

/// Steps back over the number characters that end `s[..i]`.
pub open spec fn skip_number(s: Seq<char>, i: int) -> int
    decreases i,
{
    if i > 0 && i <= s.len() && is_num_char(s[i - 1]) {
        skip_number(s, i - 1)
    } else {
        i
    }
}

/// Steps back over the characters that end `s[..i]` and cannot belong to a number.
pub open spec fn skip_separator(s: Seq<char>, i: int) -> int
    decreases i,
{
    if i > 0 && i <= s.len() && !is_num_char(s[i - 1]) {
        skip_separator(s, i - 1)
    } else {
        i
    }
}

/// Where the last coordinate pair of path data starts: trailing spaces, the last number,
/// the separator before it and the number before that are stepped over from the end.
pub open spec fn last_pair_start(s: Seq<char>) -> int {
    skip_number(s, skip_separator(s, skip_number(s, skip_spaces(s, s.len() as int))))
}

proof fn lemma_skip_bounds(s: Seq<char>, i: int)
    requires
        0 <= i <= s.len(),
    ensures
        0 <= skip_spaces(s, i) <= i,
        0 <= skip_number(s, i) <= i,
        0 <= skip_separator(s, i) <= i,
    decreases i,
{
    if i > 0 {
        lemma_skip_bounds(s, i - 1);
    }
}

/// Whether `c` can belong to a number in path data.
fn is_num_char_exec(c: char) -> (b: bool)
    ensures
        b == is_num_char(c),
{
    ('0' <= c && c <= '9') || c == '.' || c == '-'
}

/// The position reached from `i` by stepping back over characters that satisfy (when
/// `num` holds) or fail (otherwise) `is_num_char`, or over spaces when `spaces` holds.
fn step_back(s: &str, i: usize, spaces: bool, num: bool) -> (j: usize)
    requires
        i <= s@.len(),
    ensures
        spaces ==> j == skip_spaces(s@, i as int),
        !spaces && num ==> j == skip_number(s@, i as int),
        !spaces && !num ==> j == skip_separator(s@, i as int),
{
    let mut j = i;
    while j > 0
        invariant
            j <= i <= s@.len(),
            spaces ==> skip_spaces(s@, j as int) == skip_spaces(s@, i as int),
            !spaces && num ==> skip_number(s@, j as int) == skip_number(s@, i as int),
            !spaces && !num ==> skip_separator(s@, j as int) == skip_separator(s@, i as int),
        ensures
            j <= i,
            spaces ==> skip_spaces(s@, j as int) == j,
            !spaces && num ==> skip_number(s@, j as int) == j,
            !spaces && !num ==> skip_separator(s@, j as int) == j,
            spaces ==> skip_spaces(s@, j as int) == skip_spaces(s@, i as int),
            !spaces && num ==> skip_number(s@, j as int) == skip_number(s@, i as int),
            !spaces && !num ==> skip_separator(s@, j as int) == skip_separator(s@, i as int),
        decreases j,
    {
        let c = s.get_char(j - 1);
        let moves = if spaces {
            c == ' '
        } else if num {
            is_num_char_exec(c)
        } else {
            !is_num_char_exec(c)
        };
        if !moves {
            break;
        }
        j = j - 1;
    }
    j
}

/// Replaces the last coordinate pair of path data `d` with `replacement`: trailing
/// spaces, the last number, the separator before it and the number before that are
/// cut, and `replacement` is appended.
pub fn replace_last_pair(d: &mut String, replacement: &str)
    ensures
        final(d)@ == old(d)@.subrange(0, last_pair_start(old(d)@)) + replacement@,
{
    let s = d.as_str();
    let n = s.unicode_len();
    proof {
        lemma_skip_bounds(s@, n as int);
    }
    let i0 = step_back(s, n, true, false);
    proof {
        lemma_skip_bounds(s@, i0 as int);
    }
    let i1 = step_back(s, i0, false, true);
    proof {
        lemma_skip_bounds(s@, i1 as int);
    }
    let i2 = step_back(s, i1, false, false);
    proof {
        lemma_skip_bounds(s@, i2 as int);
    }
    let i3 = step_back(s, i2, false, true);
    let mut out = String::from_str(s.substring_char(0, i3));
    out.append(replacement);
    *d = out;
}

} // verus!
