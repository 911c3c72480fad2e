//! Verified text formatting for the report: decimal numbers, two-decimal
//! fixed-point values, human-scaled byte sizes and percentages, and column
//! padding.

use vstd::prelude::*;
use vstd::string::*;

verus! {

/// The character for a single decimal digit.
pub open spec fn digit_char(d: nat) -> char {
    if d == 0 {
        '0'
    } else if d == 1 {
        '1'
    } else if d == 2 {
        '2'
    } else if d == 3 {
        '3'
    } else if d == 4 {
        '4'
    } else if d == 5 {
        '5'
    } else if d == 6 {
        '6'
    } else if d == 7 {
        '7'
    } else if d == 8 {
        '8'
    } else {
        '9'
    }
}

/// The usual decimal rendering of `n`, most significant digit first, no
/// leading zeros (a single `'0'` for zero).
pub open spec fn dec_chars(n: nat) -> Seq<char>
    decreases n,
    via dec_chars_decreases
{
    if n < 10 {
        seq![digit_char(n)]
    } else {
        dec_chars(n / 10).push(digit_char(n % 10))
    }
}

#[via_fn]
proof fn dec_chars_decreases(n: nat) {
    if n >= 10 {
        vstd::arithmetic::div_mod::lemma_div_decreases(n as int, 10);
    }
}

/// Division rounded to the nearest integer, ties to the even neighbour.
/// Division by zero yields zero, as Verus's `/` does.
pub open spec fn round_div_even(num: nat, den: nat) -> nat {
    if den == 0 {
        0
    } else {
        let q = num / den;
        let r2 = 2 * (num % den);
        if r2 > den || (r2 == den && q % 2 == 1) {
            q + 1
        } else {
            q
        }
    }
}

/// A value in hundredths, rendered with exactly two decimal digits:
/// `h == 150` becomes `1.50`.
pub open spec fn two_dec_chars(h: nat) -> Seq<char> {
    dec_chars(h / 100).push('.').push(digit_char((h / 10) % 10)).push(digit_char(h % 10))
}

/// How often the size is divided by 1024 before rendering: the first unit
/// that brings the value under 1024, capped at the last unit.
pub open spec fn unit_index(n: nat) -> nat {
    if n < 1024 {
        0
    } else if n < 1048576 {
        1
    } else if n < 1073741824 {
        2
    } else if n < 1099511627776 {
        3
    } else if n < 1125899906842624 {
        4
    } else {
        5
    }
}

/// The divisor belonging to a unit: 1024 to the power of the unit's index.
pub open spec fn unit_divisor(k: nat) -> nat {
    if k == 0 {
        1
    } else if k == 1 {
        1024
    } else if k == 2 {
        1048576
    } else if k == 3 {
        1073741824
    } else if k == 4 {
        1099511627776
    } else {
        1125899906842624
    }
}

/// The unit suffix for a unit index.
pub open spec fn unit_chars(k: nat) -> Seq<char> {
    if k == 0 {
        "B"@
    } else if k == 1 {
        "KB"@
    } else if k == 2 {
        "MB"@
    } else if k == 3 {
        "GB"@
    } else if k == 4 {
        "TB"@
    } else {
        "PB"@
    }
}

/// `n` scaled by the divisor of its unit, in rounded hundredths.
pub open spec fn scaled_hundredths(n: nat) -> nat {
    round_div_even(n * 100, unit_divisor(unit_index(n)))
}

/// The human-scaled rendering of a byte count: the value scaled into
/// `[0, 1024)` by the first unit of B, KB, MB, GB, TB, PB that gets it there
/// (PB regardless of magnitude as the last resort), with two decimal digits
/// and the unit suffix.
pub open spec fn spec_format_size(n: nat) -> Seq<char> {
    two_dec_chars(scaled_hundredths(n)) + " "@ + unit_chars(unit_index(n))
}

/// A percentage `100 * part / whole` in rounded hundredths. A zero `whole`
/// yields zero.
pub open spec fn percent_hundredths(part: nat, whole: nat) -> nat {
    round_div_even(part * 10000, whole)
}

/// The percentage of `whole` that `part` makes up, with two decimal digits
/// (the trailing `%` is left to the caller).
pub open spec fn spec_percent(part: nat, whole: nat) -> Seq<char> {
    two_dec_chars(percent_hundredths(part, whole))
}

/// `n` spaces.
pub open spec fn spaces(n: nat) -> Seq<char>
    decreases n,
{
    if n == 0 {
        Seq::empty()
    } else {
        spaces((n - 1) as nat).push(' ')
    }
}

/// `s` preceded by as many spaces as bring it to width `w`; unchanged if
/// already that wide.
pub open spec fn pad_left_chars(s: Seq<char>, w: nat) -> Seq<char> {
    if s.len() >= w {
        s
    } else {
        spaces((w - s.len()) as nat) + s
    }
}

/// `s` followed by as many spaces as bring it to width `w`; unchanged if
/// already that wide.
pub open spec fn pad_right_chars(s: Seq<char>, w: nat) -> Seq<char> {
    if s.len() >= w {
        s
    } else {
        s + spaces((w - s.len()) as nat)
    }
}

/// Appends the digit `d` to `s`.
fn push_digit(s: &mut String, d: u64)
    requires
        d < 10,
    ensures
        final(s)@ == old(s)@.push(digit_char(d as nat)),
{
    proof {
        reveal_strlit("0");
        reveal_strlit("1");
        reveal_strlit("2");
        reveal_strlit("3");
        reveal_strlit("4");
        reveal_strlit("5");
        reveal_strlit("6");
        reveal_strlit("7");
        reveal_strlit("8");
        reveal_strlit("9");
    }
    if d == 0 {
        s.append("0");
    } else if d == 1 {
        s.append("1");
    } else if d == 2 {
        s.append("2");
    } else if d == 3 {
        s.append("3");
    } else if d == 4 {
        s.append("4");
    } else if d == 5 {
        s.append("5");
    } else if d == 6 {
        s.append("6");
    } else if d == 7 {
        s.append("7");
    } else if d == 8 {
        s.append("8");
    } else {
        s.append("9");
    }
    proof {
        assert(s@ =~= old(s)@.push(digit_char(d as nat)));
    }
}

/// The decimal rendering of `n`.
pub fn decimal_string(n: u64) -> (r: String)
    ensures
        r@ == dec_chars(n as nat),
    decreases n,
{
    if n < 10 {
        let mut r = String::new();
        push_digit(&mut r, n);
        proof {
            assert(r@ =~= dec_chars(n as nat));
        }
        r
    } else {
        proof {
            vstd::arithmetic::div_mod::lemma_div_decreases(n as int, 10);
        }
        let mut r = decimal_string(n / 10);
        push_digit(&mut r, n % 10);
        r
    }
}

/// The two-decimal rendering of a value given in hundredths.
pub fn two_dec_string(h: u64) -> (r: String)
    ensures
        r@ == two_dec_chars(h as nat),
{
    let mut r = decimal_string(h / 100);
    proof {
        reveal_strlit(".");
    }
    r.append(".");
    proof {
        assert(r@ =~= dec_chars((h / 100) as nat).push('.'));
    }
    push_digit(&mut r, (h / 10) % 10);
    push_digit(&mut r, h % 10);
    r
}

/// `num * mult / den`, rounded to the nearest integer with ties to even.
fn div_round_even(num: u64, mult: u64, den: u64) -> (h: u64)
    requires
        1 <= den,
        num as int * mult as int <= den as int * 2_000_000_000,
    ensures
        h as nat == round_div_even((num * mult) as nat, den as nat),
{
    proof {
        assert(num as int * mult as int <= 0xffff_ffff_ffff_ffff * 0xffff_ffff_ffff_ffff)
            by (nonlinear_arith)
            requires
                num as int <= 0xffff_ffff_ffff_ffff,
                mult as int <= 0xffff_ffff_ffff_ffff,
        {}
    }
    let prod: u128 = (num as u128) * (mult as u128);
    let d: u128 = den as u128;
    let q: u128 = prod / d;
    let r2: u128 = 2 * (prod % d);
    proof {
        vstd::arithmetic::div_mod::lemma_fundamental_div_mod(prod as int, d as int);
        assert(q <= 2_000_000_000) by (nonlinear_arith)
            requires
                d as int * q as int <= prod as int,
                prod as int <= d as int * 2_000_000_000,
                d as int >= 1,
        {}
    }
    let h: u128 = if r2 > d || (r2 == d && q % 2 == 1) {
        q + 1
    } else {
        q
    };
    h as u64
}

/// Renders a byte count as a human-scaled size such as `1.50 KB`: divided by
/// 1024 while at least 1024 and a larger unit remains (B through PB), with
/// two decimal digits, rounded half-to-even.
pub fn format_size(size_bytes: u64) -> (r: String)
    ensures
        r@ == spec_format_size(size_bytes as nat),
{
    let d: u64 = if size_bytes < 1024 {
        1
    } else if size_bytes < 1048576 {
        1024
    } else if size_bytes < 1073741824 {
        1048576
    } else if size_bytes < 1099511627776 {
        1073741824
    } else if size_bytes < 1125899906842624 {
        1099511627776
    } else {
        1125899906842624
    };
    proof {
        assert(d as nat == unit_divisor(unit_index(size_bytes as nat)));
    }
    let h = div_round_even(size_bytes, 100, d);
    let mut r = two_dec_string(h);
    proof {
        reveal_strlit(" ");
    }
    r.append(" ");
    proof {
        assert(r@ =~= two_dec_chars(scaled_hundredths(size_bytes as nat)) + " "@);
    }
    if size_bytes < 1024 {
        r.append("B");
    } else if size_bytes < 1048576 {
        r.append("KB");
    } else if size_bytes < 1073741824 {
        r.append("MB");
    } else if size_bytes < 1099511627776 {
        r.append("GB");
    } else if size_bytes < 1125899906842624 {
        r.append("TB");
    } else {
        r.append("PB");
    }
    r
}

/// Renders the percentage of `whole` that `part` makes up, with two decimal
/// digits, rounded half-to-even: `percent_string(1, 3)` is `33.33`. When
/// `whole` is zero (only possible when every row is zero bytes) the result
/// is `0.00`.
pub fn percent_string(part: u64, whole: u64) -> (r: String)
    requires
        part <= whole,
    ensures
        r@ == spec_percent(part as nat, whole as nat),
{
    let h: u64 = if whole == 0 {
        0
    } else {
        div_round_even(part, 10000, whole)
    };
    two_dec_string(h)
}

/// Pads `s` on the left with spaces to width `w` (in characters); a wider
/// `s` is returned unchanged.
pub fn pad_left(s: &str, w: usize) -> (r: String)
    ensures
        r@ == pad_left_chars(s@, w as nat),
{
    let n = s.unicode_len();
    if n >= w {
        return s.to_owned();
    }
    let k = w - n;
    let mut r = String::new();
    let mut i: usize = 0;
    proof {
        reveal_strlit(" ");
    }
    while i < k
        invariant
            i <= k,
            r@ == spaces(i as nat),
            " "@ =~= seq![' '],
        decreases k - i,
    {
        r.append(" ");
        proof {
            assert(r@ =~= spaces((i + 1) as nat));
        }
        i += 1;
    }
    r.append(s);
    r
}

/// Pads `s` on the right with spaces to width `w` (in characters); a wider
/// `s` is returned unchanged.
pub fn pad_right(s: &str, w: usize) -> (r: String)
    ensures
        r@ == pad_right_chars(s@, w as nat),
{
    let n = s.unicode_len();
    let mut r = s.to_owned();
    if n >= w {
        return r;
    }
    let k = w - n;
    let mut i: usize = 0;
    proof {
        reveal_strlit(" ");
        assert(s@ + spaces(0) =~= s@);
    }
    while i < k
        invariant
            i <= k,
            r@ == s@ + spaces(i as nat),
            " "@ =~= seq![' '],
        decreases k - i,
    {
        r.append(" ");
        proof {
            assert(r@ =~= s@ + spaces((i + 1) as nat));
        }
        i += 1;
    }
    r
}

} // verus!
