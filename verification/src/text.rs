//! Text building blocks: decimal and hexadecimal digits, Unicode trailing-whitespace
//! trimming, and the trimming of redundant zeros in a formatted decimal number.

use vstd::prelude::*;
use crate::color::Color;

verus! {

/// The sixteen digits `0`-`9`, `A`-`F`.
pub open spec fn hex_digits() -> Seq<char> {
    seq!['0', '1', '2', '3', '4', '5', '6', '7', '8', '9', 'A', 'B', 'C', 'D', 'E', 'F']
}

/// The character of a digit value below 16.
pub open spec fn digit_char(d: int) -> char
    recommends
        0 <= d < 16,
{
    hex_digits()[d]
}

/// The decimal representation of `n`, without leading zeros.
pub open spec fn decimal(n: nat) -> Seq<char>
    decreases n,
{
    if n < 10 {
        seq![digit_char(n as int)]
    } else {
        decimal(n / 10).push(digit_char((n % 10) as int))
    }
}

/// Two upper-case hexadecimal digits of a byte (`{:02X}`).
pub open spec fn hex2(v: u8) -> Seq<char> {
    seq![digit_char(v as int / 16), digit_char(v as int % 16)]
}

/// `#RRGGBB` with upper-case hexadecimal digits; alpha is not written.
pub open spec fn hex_color(c: Color) -> Seq<char> {
    seq!['#'] + hex2(c.r) + hex2(c.g) + hex2(c.b)
}

/// Characters with the Unicode `White_Space` property.
pub open spec fn is_white_space(c: char) -> bool {
    let v = c as u32;
    ||| 0x09 <= v <= 0x0D
    ||| v == 0x20
    ||| v == 0x85
    ||| v == 0xA0
    ||| v == 0x1680
    ||| 0x2000 <= v <= 0x200A
    ||| v == 0x2028
    ||| v == 0x2029
    ||| v == 0x202F
    ||| v == 0x205F
    ||| v == 0x3000
}

/// `s` without its trailing white space.
pub open spec fn trim_end_spec(s: Seq<char>) -> Seq<char>
    decreases s.len(),
{
    if s.len() > 0 && is_white_space(s.last()) {
        trim_end_spec(s.drop_last())
    } else {
        s
    }
}

/// `s` without the copies of `c` at its end.
pub open spec fn strip_end(s: Seq<char>, c: char) -> Seq<char>
    decreases s.len(),
{
    if s.len() > 0 && s.last() == c {
        strip_end(s.drop_last(), c)
    } else {
        s
    }
}

/// A formatted decimal number without redundant fraction zeros: where `s` holds a
/// `.`, its trailing `0`s and then its trailing `.`s are removed.
pub open spec fn trim_fraction(s: Seq<char>) -> Seq<char> {
    if s.contains('.') {
        strip_end(strip_end(s, '0'), '.')
    } else {
        s
    }
}

fn append_digit(s: &mut String, d: u8)
    requires
        d < 16,
    ensures
        final(s)@ == old(s)@.push(digit_char(d as int)),
{
    let lit: &str = match d {
        0 => { proof { reveal_strlit("0"); } "0" },
        1 => { proof { reveal_strlit("1"); } "1" },
        2 => { proof { reveal_strlit("2"); } "2" },
        3 => { proof { reveal_strlit("3"); } "3" },
        4 => { proof { reveal_strlit("4"); } "4" },
        5 => { proof { reveal_strlit("5"); } "5" },
        6 => { proof { reveal_strlit("6"); } "6" },
        7 => { proof { reveal_strlit("7"); } "7" },
        8 => { proof { reveal_strlit("8"); } "8" },
        9 => { proof { reveal_strlit("9"); } "9" },
        10 => { proof { reveal_strlit("A"); } "A" },
        11 => { proof { reveal_strlit("B"); } "B" },
        12 => { proof { reveal_strlit("C"); } "C" },
        13 => { proof { reveal_strlit("D"); } "D" },
        14 => { proof { reveal_strlit("E"); } "E" },
        _ => { proof { reveal_strlit("F"); } "F" },
    };
    assert(lit@ =~= seq![digit_char(d as int)]);
    s.append(lit);
}

/// Appends the decimal representation of `n` (as `format!("{}", n)` writes it).
pub fn append_decimal(s: &mut String, n: usize)
    ensures
        final(s)@ == old(s)@ + decimal(n as nat),
    decreases n,
{
    if n < 10 {
        append_digit(s, n as u8);
        assert(decimal(n as nat) =~= seq![digit_char(n as int)]);
    } else {
        append_decimal(s, n / 10);
        append_digit(s, (n % 10) as u8);
    }
}

/// Appends the two upper-case hexadecimal digits of `v`.
fn append_hex2(s: &mut String, v: u8)
    ensures
        final(s)@ == old(s)@ + hex2(v),
{
    append_digit(s, v / 16);
    append_digit(s, v % 16);
}

/// The color as `#RRGGBB` (upper-case hex, alpha dropped).
pub fn to_hex_string(c: Color) -> (s: String)
    ensures
        s@ == hex_color(c),
{
    let mut s = String::new();
    proof { reveal_strlit("#"); }
    s.append("#");
    append_hex2(&mut s, c.r);
    append_hex2(&mut s, c.g);
    append_hex2(&mut s, c.b);
    assert(s@ =~= hex_color(c));
    s
}

/// Whether `c` has the Unicode `White_Space` property (as `char::is_whitespace`).
pub fn is_white_space_char(c: char) -> (b: bool)
    ensures
        b == is_white_space(c),
{
    let v = c as u32;
    (0x09 <= v && v <= 0x0D) || v == 0x20 || v == 0x85 || v == 0xA0 || v == 0x1680 || (0x2000
        <= v && v <= 0x200A) || v == 0x2028 || v == 0x2029 || v == 0x202F || v == 0x205F || v
        == 0x3000
}

proof fn lemma_trim_end_prefix(s: Seq<char>, k: int)
    requires
        0 < k <= s.len(),
        is_white_space(s[k - 1]),
    ensures
        trim_end_spec(s.subrange(0, k)) == trim_end_spec(s.subrange(0, k - 1)),
{
    assert(s.subrange(0, k).drop_last() =~= s.subrange(0, k - 1));
}

proof fn lemma_strip_end_prefix(s: Seq<char>, k: int, c: char)
    requires
        0 < k <= s.len(),
        s[k - 1] == c,
    ensures
        strip_end(s.subrange(0, k), c) == strip_end(s.subrange(0, k - 1), c),
{
    assert(s.subrange(0, k).drop_last() =~= s.subrange(0, k - 1));
}

/// `s` without its trailing white space (as `str::trim_end`).
pub fn trim_end(s: &str) -> (r: &str)
    ensures
        r@ == trim_end_spec(s@),
{
    let n = s.unicode_len();
    let mut k = n;
    assert(s@.subrange(0, n as int) =~= s@);
    while k > 0
        invariant
            n == s@.len(),
            k <= n,
            trim_end_spec(s@.subrange(0, k as int)) == trim_end_spec(s@),
        ensures
            k <= n,
            trim_end_spec(s@.subrange(0, k as int)) == trim_end_spec(s@),
            k == 0 || !is_white_space(s@[k - 1]),
        decreases k,
    {
        let ch = s.get_char(k - 1);
        if !is_white_space_char(ch) {
            break;
        }
        proof {
            lemma_trim_end_prefix(s@, k as int);
        }
        k = k - 1;
    }
    let r = s.substring_char(0, k);
    proof {
        if k > 0 {
            assert(s@.subrange(0, k as int).last() == s@[k - 1]);
        } else {
            assert(s@.subrange(0, 0) =~= Seq::<char>::empty());
        }
    }
    r
}

/// The number of characters of `s[..end]` that remain when the copies of `c` at its end
/// are removed.
fn strip_end_len(s: &str, end: usize, c: char) -> (k: usize)
    requires
        end <= s@.len(),
    ensures
        k <= end,
        s@.subrange(0, k as int) == strip_end(s@.subrange(0, end as int), c),
{
    let mut k = end;
    while k > 0
        invariant
            end <= s@.len(),
            k <= end,
            strip_end(s@.subrange(0, k as int), c) == strip_end(s@.subrange(0, end as int), c),
        ensures
            k <= end,
            strip_end(s@.subrange(0, k as int), c) == strip_end(s@.subrange(0, end as int), c),
            k == 0 || s@[k - 1] != c,
        decreases k,
    {
        let ch = s.get_char(k - 1);
        if ch != c {
            break;
        }
        proof {
            lemma_strip_end_prefix(s@, k as int, c);
        }
        k = k - 1;
    }
    proof {
        if k > 0 {
            assert(s@.subrange(0, k as int).last() == s@[k - 1]);
        } else {
            assert(s@.subrange(0, 0) =~= Seq::<char>::empty());
        }
    }
    k
}

/// Whether `s` holds the character `c`.
fn contains_char(s: &str, c: char) -> (b: bool)
    ensures
        b == s@.contains(c),
{
    let n = s.unicode_len();
    let mut i: usize = 0;
    while i < n
        invariant
            n == s@.len(),
            i <= n,
            forall|j: int| 0 <= j < i ==> s@[j] != c,
        decreases n - i,
    {
        if s.get_char(i) == c {
            return true;
        }
        i = i + 1;
    }
    false
}

/// Removes redundant fraction zeros from a formatted decimal number: where `s` holds a
/// `.`, its trailing `0`s and then its trailing `.`s go (`"1.50"` gives `"1.5"`, `"2.00"`
/// gives `"2"`); a number without `.` is kept as it is.
pub fn trim_fraction_zeros(s: &str) -> (r: &str)
    ensures
        r@ == trim_fraction(s@),
{
    let n = s.unicode_len();
    assert(s@.subrange(0, n as int) =~= s@);
    if contains_char(s, '.') {
        let k0 = strip_end_len(s, n, '0');
        let k1 = strip_end_len(s, k0, '.');
        assert(s@.subrange(0, k0 as int).subrange(0, k1 as int) =~= s@.subrange(0, k1 as int));
        s.substring_char(0, k1)
    } else {
        s
    }
}

/// The value of a sequence of decimal digit characters.
pub open spec fn decimal_value(s: Seq<char>) -> int
    decreases s.len(),
{
    if s.len() == 0 {
        0
    } else {
        decimal_value(s.drop_last()) * 10 + (s.last() as int - '0' as int)
    }
}

proof fn lemma_digit_char(d: int)
    requires
        0 <= d < 10,
    ensures
        '0' <= digit_char(d) <= '9',
        digit_char(d) as int - '0' as int == d,
{
    assert(hex_digits()[0] == '0');
    assert(hex_digits()[1] == '1');
    assert(hex_digits()[2] == '2');
    assert(hex_digits()[3] == '3');
    assert(hex_digits()[4] == '4');
    assert(hex_digits()[5] == '5');
    assert(hex_digits()[6] == '6');
    assert(hex_digits()[7] == '7');
    assert(hex_digits()[8] == '8');
    assert(hex_digits()[9] == '9');
}

/// The decimal form of `n` is a non-empty string of digits, without a leading zero
/// unless `n` is zero, that reads back as `n`.
pub proof fn lemma_decimal_reads_back(n: nat)
    ensures
        decimal(n).len() >= 1,
        forall|i: int| 0 <= i < decimal(n).len() ==> '0' <= #[trigger] decimal(n)[i] <= '9',
        n > 0 ==> decimal(n)[0] != '0',
        decimal_value(decimal(n)) == n,
    decreases n,
{
    if n < 10 {
        lemma_digit_char(n as int);
        assert(decimal(n).drop_last() =~= Seq::<char>::empty());
        assert(decimal_value(decimal(n).drop_last()) == 0);
    } else {
        lemma_decimal_reads_back(n / 10);
        lemma_digit_char((n % 10) as int);
        let s = decimal(n);
        assert(s.drop_last() == decimal(n / 10));
        assert(n == (n / 10) * 10 + n % 10) by (nonlinear_arith);
        assert forall|i: int| 0 <= i < s.len() implies '0' <= #[trigger] s[i] <= '9' by {
            if i < s.len() - 1 {
                assert(s[i] == decimal(n / 10)[i]);
            }
        }
        assert(s[0] == decimal(n / 10)[0]);
    }
}

/// Trimming leaves a prefix without trailing white space, and trimming again changes
/// nothing.
pub proof fn lemma_trim_end_laws(s: Seq<char>)
    ensures
        trim_end_spec(s).len() <= s.len(),
        trim_end_spec(s) == s.subrange(0, trim_end_spec(s).len() as int),
        trim_end_spec(s).len() > 0 ==> !is_white_space(trim_end_spec(s).last()),
        trim_end_spec(trim_end_spec(s)) == trim_end_spec(s),
    decreases s.len(),
{
    if s.len() > 0 && is_white_space(s.last()) {
        lemma_trim_end_laws(s.drop_last());
        let t = trim_end_spec(s.drop_last());
        assert(s.drop_last().subrange(0, t.len() as int) =~= s.subrange(0, t.len() as int));
    } else {
        assert(s.subrange(0, s.len() as int) =~= s);
    }
}

proof fn lemma_strip_end_laws(s: Seq<char>, c: char)
    ensures
        strip_end(s, c).len() <= s.len(),
        strip_end(s, c) == s.subrange(0, strip_end(s, c).len() as int),
        strip_end(s, c).len() > 0 ==> strip_end(s, c).last() != c,
        forall|i: int| strip_end(s, c).len() <= i < s.len() ==> #[trigger] s[i] == c,
    decreases s.len(),
{
    if s.len() > 0 && s.last() == c {
        lemma_strip_end_laws(s.drop_last(), c);
        let t = strip_end(s.drop_last(), c);
        assert(s.drop_last().subrange(0, t.len() as int) =~= s.subrange(0, t.len() as int));
        assert forall|i: int| t.len() <= i < s.len() implies #[trigger] s[i] == c by {
            if i < s.len() - 1 {
                assert(s[i] == s.drop_last()[i]);
            }
        }
    } else {
        assert(s.subrange(0, s.len() as int) =~= s);
    }
}

/// Trimming a formatted number's fraction zeros leaves a prefix of it from which only
/// `0`s and `.`s were removed; when it had a single `.`, the result ends neither in `.`
/// nor, while it keeps the `.`, in `0`.
pub proof fn lemma_trim_fraction_laws(s: Seq<char>)
    requires
        forall|i: int, j: int| 0 <= i < j < s.len() ==> !(#[trigger] s[i] == '.' && #[trigger] s[j] == '.'),
    ensures
        trim_fraction(s) == s.subrange(0, trim_fraction(s).len() as int),
        s.contains('.') && trim_fraction(s).len() > 0 ==> trim_fraction(s).last() != '.',
        s.contains('.') && trim_fraction(s).contains('.') ==> trim_fraction(s).last() != '0',
        forall|i: int| trim_fraction(s).len() <= i < s.len() ==> #[trigger] s[i] == '0' || s[i] == '.',
{
    if s.contains('.') {
        let a = strip_end(s, '0');
        let b = strip_end(a, '.');
        lemma_strip_end_laws(s, '0');
        lemma_strip_end_laws(a, '.');
        assert(a.subrange(0, b.len() as int) =~= s.subrange(0, b.len() as int));
        assert forall|i: int| b.len() <= i < s.len() implies #[trigger] s[i] == '0' || s[i] == '.' by {
            if i < a.len() {
                assert(a[i] == s[i]);
            }
        }
        if b.contains('.') && b.len() > 0 && b.last() == '0' {
            if b.len() == a.len() {
                assert(b =~= a);
            } else {
                let k = choose|k: int| 0 <= k < b.len() && b[k] == '.';
                assert(a[b.len() as int] == '.');
                assert(s[k] == '.' && s[b.len() as int] == '.');
            }
        }
    } else {
        assert(s.subrange(0, s.len() as int) =~= s);
    }
}

/// The value of an upper-case hexadecimal digit character.
pub open spec fn hex_digit_value(c: char) -> int {
    if '0' <= c && c <= '9' {
        c as int - '0' as int
    } else {
        c as int - 'A' as int + 10
    }
}

proof fn lemma_hex_digit(d: int)
    requires
        0 <= d < 16,
    ensures
        hex_digit_value(digit_char(d)) == d,
        ('0' <= digit_char(d) <= '9') || ('A' <= digit_char(d) <= 'F'),
{
    assert(hex_digits()[0] == '0');
    assert(hex_digits()[1] == '1');
    assert(hex_digits()[2] == '2');
    assert(hex_digits()[3] == '3');
    assert(hex_digits()[4] == '4');
    assert(hex_digits()[5] == '5');
    assert(hex_digits()[6] == '6');
    assert(hex_digits()[7] == '7');
    assert(hex_digits()[8] == '8');
    assert(hex_digits()[9] == '9');
    assert(hex_digits()[10] == 'A');
    assert(hex_digits()[11] == 'B');
    assert(hex_digits()[12] == 'C');
    assert(hex_digits()[13] == 'D');
    assert(hex_digits()[14] == 'E');
    assert(hex_digits()[15] == 'F');
}

/// `#RRGGBB` is seven characters, `#` and six upper-case hex digits, from which the
/// red, green and blue channels read back.
pub proof fn lemma_hex_color_reads_back(c: Color)
    ensures
        hex_color(c).len() == 7,
        hex_color(c)[0] == '#',
        forall|i: int| 1 <= i < 7 ==> ('0' <= #[trigger] hex_color(c)[i] <= '9') || ('A' <= hex_color(c)[i] <= 'F'),
        hex_digit_value(hex_color(c)[1]) * 16 + hex_digit_value(hex_color(c)[2]) == c.r,
        hex_digit_value(hex_color(c)[3]) * 16 + hex_digit_value(hex_color(c)[4]) == c.g,
        hex_digit_value(hex_color(c)[5]) * 16 + hex_digit_value(hex_color(c)[6]) == c.b,
{
    lemma_hex_digit(c.r as int / 16);
    lemma_hex_digit(c.r as int % 16);
    lemma_hex_digit(c.g as int / 16);
    lemma_hex_digit(c.g as int % 16);
    lemma_hex_digit(c.b as int / 16);
    lemma_hex_digit(c.b as int % 16);
    let h = hex_color(c);
    assert(h =~= seq!['#', digit_char(c.r as int / 16), digit_char(c.r as int % 16), digit_char(c.g as int / 16),
        digit_char(c.g as int % 16), digit_char(c.b as int / 16), digit_char(c.b as int % 16)]);
}

/// Trimming removes characters only after the first `.`: the integer part (everything
/// before the first `.`) is kept whole, so the number's value does not change.
pub proof fn lemma_trim_fraction_keeps_integer_part(s: Seq<char>, p: int)
    requires
        0 <= p < s.len(),
        s[p] == '.',
        forall|i: int| 0 <= i < p ==> #[trigger] s[i] != '.',
    ensures
        trim_fraction(s).len() >= p,
        trim_fraction(s).subrange(0, p) == s.subrange(0, p),
{
    assert(s.contains('.'));
    let a = strip_end(s, '0');
    let b = strip_end(a, '.');
    lemma_strip_end_laws(s, '0');
    lemma_strip_end_laws(a, '.');
    // the '0' strip stops at or after the '.' at p
    if a.len() <= p {
        assert(s[p] == '0');
    }
    assert(a.len() > p);
    assert(a[p] == s[p]);
    // the '.' strip cannot pass a character before p, none of which is a '.'
    if b.len() < p {
        assert(a[b.len() as int] == '.');
        assert(a[b.len() as int] == s[b.len() as int]);
    }
    assert(b.subrange(0, p) =~= s.subrange(0, p)) by {
        assert forall|i: int| 0 <= i < p implies b[i] == s[i] by {
            assert(b[i] == a[i]);
            assert(a[i] == s[i]);
        }
    }
}

} // verus!
