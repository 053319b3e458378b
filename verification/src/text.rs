//! Textual form of decimal numbers and of the six-line world file.
//!
//! The grammar for one number is an optional sign, decimal digits, and at
//! most one point: `-32.0`, `691200.0`, `.5`, `17`. The specification-level
//! parser [`dec_of`] and renderer [`render_dec`] are exact inverses on
//! well-formed [`Dec`] values, which [`lemma_dec_round_trip`] proves.

use vstd::prelude::*;

use crate::num::Dec;
use crate::num::MAX_ABS;
use crate::num::MAX_FRAC;
use crate::num::pow10;
use crate::num::lemma_pow10_pos;

verus! {

/// The ten decimal digit characters.
pub open spec fn is_digit(c: char) -> bool {
    c == '0' || c == '1' || c == '2' || c == '3' || c == '4' || c == '5' || c == '6' || c == '7'
        || c == '8' || c == '9'
}

/// The numeric value of a digit character.
pub open spec fn digit_val(c: char) -> int {
    if c == '0' {
        0
    } else if c == '1' {
        1
    } else if c == '2' {
        2
    } else if c == '3' {
        3
    } else if c == '4' {
        4
    } else if c == '5' {
        5
    } else if c == '6' {
        6
    } else if c == '7' {
        7
    } else if c == '8' {
        8
    } else {
        9
    }
}

/// The digit character with a given value.
pub open spec fn digit_char(v: int) -> char {
    if v == 0 {
        '0'
    } else if v == 1 {
        '1'
    } else if v == 2 {
        '2'
    } else if v == 3 {
        '3'
    } else if v == 4 {
        '4'
    } else if v == 5 {
        '5'
    } else if v == 6 {
        '6'
    } else if v == 7 {
        '7'
    } else if v == 8 {
        '8'
    } else {
        '9'
    }
}

/// Whether every character of a sequence is a digit.
pub open spec fn all_digits(s: Seq<char>) -> bool {
    forall|k: int| 0 <= k < s.len() ==> is_digit(#[trigger] s[k])
}

/// The number a digit sequence denotes, most significant digit first; the
/// empty sequence denotes zero.
pub open spec fn num_of(s: Seq<char>) -> int
    decreases s.len(),
{
    if s.len() == 0 {
        0
    } else {
        num_of(s.drop_last()) * 10 + digit_val(s.last())
    }
}

/// The shortest digit rendering of a nonnegative number: no leading zero,
/// except that zero itself renders as one `0`.
pub open spec fn digits_of(n: int) -> Seq<char>
    decreases n,
{
    if n < 10 {
        seq![digit_char(n)]
    } else {
        digits_of(n / 10).push(digit_char(n % 10))
    }
}

/// `e` digits denoting `n`, left-padded with zeros.
pub open spec fn pad_digits(n: int, e: nat) -> Seq<char>
    decreases e,
{
    if e == 0 {
        Seq::empty()
    } else {
        pad_digits(n / 10, (e - 1) as nat).push(digit_char(n % 10))
    }
}

pub proof fn lemma_num_of_nonneg(s: Seq<char>)
    requires
        all_digits(s),
    ensures
        num_of(s) >= 0,
    decreases s.len(),
{
    if s.len() > 0 {
        assert(all_digits(s.drop_last()));
        lemma_num_of_nonneg(s.drop_last());
    }
}

/// Concatenation shifts the first part by a power of ten.
pub proof fn lemma_num_of_concat(s: Seq<char>, t: Seq<char>)
    ensures
        num_of(s + t) == num_of(s) * pow10(t.len()) + num_of(t),
    decreases t.len(),
{
    if t.len() == 0 {
        assert(s + t =~= s);
        assert(pow10(0) == 1);
        assert(num_of(s) * 1 == num_of(s)) by (nonlinear_arith);
    } else {
        let p1 = pow10((t.len() - 1) as nat) as int;
        lemma_num_of_concat(s, t.drop_last());
        assert((s + t).drop_last() =~= s + t.drop_last());
        assert((s + t).last() == t.last());
        assert(num_of(s + t) == num_of(s + t.drop_last()) * 10 + digit_val(t.last()));
        assert(num_of(s + t.drop_last()) == num_of(s) * p1 + num_of(t.drop_last()));
        assert(pow10(t.len()) == 10 * pow10((t.len() - 1) as nat));
        assert((num_of(s) * p1 + num_of(t.drop_last())) * 10 + digit_val(t.last()) == num_of(s) * (
        p1 * 10) + (num_of(t.drop_last()) * 10 + digit_val(t.last()))) by (nonlinear_arith);
        assert(num_of(t) == num_of(t.drop_last()) * 10 + digit_val(t.last()));
        assert(num_of(s) * (p1 * 10) == num_of(s) * pow10(t.len())) by (nonlinear_arith)
            requires
                pow10(t.len()) == 10 * p1,
        ;
    }
}

/// The digit rendering of a number denotes that number, is nonempty, and is
/// all digits.
pub proof fn lemma_digits_of(n: int)
    requires
        n >= 0,
    ensures
        num_of(digits_of(n)) == n,
        digits_of(n).len() >= 1,
        all_digits(digits_of(n)),
    decreases n,
{
    if n < 10 {
        let s = digits_of(n);
        assert(s =~= seq![digit_char(n)]);
        assert(s.drop_last() =~= Seq::<char>::empty());
        assert(num_of(s) == num_of(s.drop_last()) * 10 + digit_val(s.last()));
        assert(num_of(s.drop_last()) == 0);
        assert(s.last() == digit_char(n));
        assert(digit_val(digit_char(n)) == n);
    } else {
        lemma_digits_of(n / 10);
        assert(digits_of(n).drop_last() =~= digits_of(n / 10));
        assert(digits_of(n).last() == digit_char(n % 10));
        assert(0 <= n % 10 < 10);
        assert(digit_val(digit_char(n % 10)) == n % 10);
        assert(num_of(digits_of(n)) == (n / 10) * 10 + n % 10);
    }
}

/// The padded rendering of a number below `10^e` denotes that number, has
/// length `e`, and is all digits.
pub proof fn lemma_pad_digits(n: int, e: nat)
    requires
        0 <= n < pow10(e),
    ensures
        num_of(pad_digits(n, e)) == n,
        pad_digits(n, e).len() == e,
        all_digits(pad_digits(n, e)),
    decreases e,
{
    if e == 0 {
    } else {
        assert(pow10(e) == 10 * pow10((e - 1) as nat));
        assert(n / 10 < pow10((e - 1) as nat)) by (nonlinear_arith)
            requires
                0 <= n < 10 * pow10((e - 1) as nat),
        ;
        lemma_pad_digits(n / 10, (e - 1) as nat);
        assert(pad_digits(n, e).drop_last() =~= pad_digits(n / 10, (e - 1) as nat));
        assert(pad_digits(n, e).last() == digit_char(n % 10));
        assert(0 <= n % 10 < 10);
        assert(digit_val(digit_char(n % 10)) == n % 10);
        assert(num_of(pad_digits(n, e)) == (n / 10) * 10 + n % 10);
    }
}

/// If no point stands in `[i, x)`, the scan from `i` reaches at least `x`.
pub proof fn lemma_dot_end_lb(s: Seq<char>, i: int, x: int)
    requires
        0 <= i <= x <= s.len(),
        forall|k: int| i <= k < x ==> s[k] != '.',
    ensures
        dot_end(s, i) >= x,
    decreases x - i,
{
    lemma_dot_end_bounds(s, i);
    if i < x {
        lemma_dot_end_lb(s, i + 1, x);
    }
}

/// The first position at or after `i` holding a point, or the length.
pub open spec fn dot_end(s: Seq<char>, i: int) -> int
    decreases s.len() - i,
{
    if i < 0 || i >= s.len() {
        s.len() as int
    } else if s[i] == '.' {
        i
    } else {
        dot_end(s, i + 1)
    }
}

pub proof fn lemma_dot_end_bounds(s: Seq<char>, i: int)
    requires
        0 <= i <= s.len(),
    ensures
        i <= dot_end(s, i) <= s.len(),
        dot_end(s, i) < s.len() ==> s[dot_end(s, i)] == '.',
        forall|k: int| i <= k < dot_end(s, i) ==> s[k] != '.',
    decreases s.len() - i,
{
    if i < s.len() && s[i] != '.' {
        lemma_dot_end_bounds(s, i + 1);
    }
}

/// If no point stands in `[i, j)` and `s[j]` is a point, the scan from `i`
/// stops at `j`.
pub proof fn lemma_dot_end_at(s: Seq<char>, i: int, j: int)
    requires
        0 <= i <= j <= s.len(),
        forall|k: int| i <= k < j ==> s[k] != '.',
        j < s.len() ==> s[j] == '.',
    ensures
        dot_end(s, i) == if j < s.len() {
            j
        } else {
            s.len() as int
        },
    decreases j - i,
{
    if i < j {
        lemma_dot_end_at(s, i + 1, j);
    }
}

/// The first position at or after `i` holding a newline, or the length.
pub open spec fn line_end(s: Seq<char>, i: int) -> int
    decreases s.len() - i,
{
    if i < 0 || i >= s.len() {
        s.len() as int
    } else if s[i] == '\n' {
        i
    } else {
        line_end(s, i + 1)
    }
}

pub proof fn lemma_line_end_bounds(s: Seq<char>, i: int)
    requires
        0 <= i <= s.len(),
    ensures
        i <= line_end(s, i) <= s.len(),
        line_end(s, i) < s.len() ==> s[line_end(s, i)] == '\n',
        forall|k: int| i <= k < line_end(s, i) ==> s[k] != '\n',
    decreases s.len() - i,
{
    if i < s.len() && s[i] != '\n' {
        lemma_line_end_bounds(s, i + 1);
    }
}

/// If no newline stands in `[i, j)` and `s[j]` is one, the scan from `i`
/// stops at `j`.
pub proof fn lemma_line_end_at(s: Seq<char>, i: int, j: int)
    requires
        0 <= i <= j <= s.len(),
        forall|k: int| i <= k < j ==> s[k] != '\n',
        j < s.len() ==> s[j] == '\n',
    ensures
        line_end(s, i) == if j < s.len() {
            j
        } else {
            s.len() as int
        },
    decreases j - i,
{
    if i < j {
        lemma_line_end_at(s, i + 1, j);
    }
}

/// A line with its trailing carriage return, if any, removed.
pub open spec fn strip_cr(l: Seq<char>) -> Seq<char> {
    if l.len() > 0 && l.last() == '\r' {
        l.drop_last()
    } else {
        l
    }
}

/// Where the `k`-th line starts; one past the end when there is none.
pub open spec fn line_start(s: Seq<char>, k: nat) -> int
    decreases k,
{
    if k == 0 {
        0
    } else {
        line_end(s, line_start(s, (k - 1) as nat)) + 1
    }
}

/// The `k`-th line, without its terminator; meaningful when it exists.
pub open spec fn line_at(s: Seq<char>, k: nat) -> Seq<char> {
    strip_cr(s.subrange(line_start(s, k), line_end(s, line_start(s, k))))
}

/// The parse of the `k`-th line; `None` when the line does not exist or is
/// not a decimal number.
pub open spec fn dec_at(s: Seq<char>, k: nat) -> Option<Dec> {
    if 0 <= line_start(s, k) < s.len() {
        dec_of(line_at(s, k))
    } else {
        None
    }
}

/// The position where the first line ends: its terminating newline, or the
/// end of the text.
pub fn find_line_end(s: &str, from: usize) -> (j: usize)
    requires
        from <= s@.len(),
    ensures
        j as int == line_end(s@, from as int),
        from <= j <= s@.len(),
{
    let n = s.unicode_len();
    let mut j = from;
    while j < n
        invariant
            from <= j <= n,
            n == s@.len(),
            forall|k: int| from <= k < j ==> s@[k] != '\n',
        decreases n - j,
    {
        let c = s.get_char(j);
        if c == '\n' {
            proof {
                lemma_line_end_at(s@, from as int, j as int);
            }
            return j;
        }
        j = j + 1;
    }
    proof {
        lemma_line_end_at(s@, from as int, n as int);
    }
    j
}

/// A parsed line lies within [`Dec`]'s bounds.
pub proof fn lemma_dec_of_wf(l: Seq<char>)
    ensures
        dec_of(l) matches Some(d) ==> d.wf(),
{
    if dec_of(l) is Some {
        let sgn: int = if l.len() > 0 && (l[0] == '-' || l[0] == '+') {
            1
        } else {
            0
        };
        let dp = dot_end(l, sgn);
        let intp = l.subrange(sgn, dp);
        let frac = if dp < l.len() {
            l.subrange(dp + 1, l.len() as int)
        } else {
            Seq::<char>::empty()
        };
        assert(all_digits(intp + frac));
        lemma_num_of_nonneg(intp + frac);
    }
}

/// The parse of one line: `Some` exactly when the text is an optional sign,
/// digits with at most one point and at least one digit, and the denoted
/// mantissa and fraction length lie within [`Dec`]'s bounds.
pub open spec fn dec_of(l: Seq<char>) -> Option<Dec> {
    let sgn: int = if l.len() > 0 && (l[0] == '-' || l[0] == '+') {
        1
    } else {
        0
    };
    let neg = l.len() > 0 && l[0] == '-';
    let dp = dot_end(l, sgn);
    let intp = l.subrange(sgn, dp);
    let frac = if dp < l.len() {
        l.subrange(dp + 1, l.len() as int)
    } else {
        Seq::empty()
    };
    let digs = intp + frac;
    if digs.len() >= 1 && all_digits(intp) && all_digits(frac) && num_of(digs) <= MAX_ABS as int
        && frac.len() <= MAX_FRAC as nat {
        Some(
            Dec {
                m: (if neg {
                    -num_of(digs)
                } else {
                    num_of(digs)
                }) as i128,
                e: frac.len() as u32,
            },
        )
    } else {
        None
    }
}

/// The rendering of one coefficient: sign, integer digits, and, when there
/// are fraction digits, a point and exactly `e` of them.
pub open spec fn render_dec(c: Dec) -> Seq<char> {
    let a = if c.m < 0 {
        -(c.m as int)
    } else {
        c.m as int
    };
    let p = pow10(c.e as nat) as int;
    let whole = digits_of(a / p);
    let tail = if c.e > 0 {
        seq!['.'] + pad_digits(a % p, c.e as nat)
    } else {
        Seq::empty()
    };
    let body = whole + tail;
    if c.m < 0 {
        seq!['-'] + body
    } else {
        body
    }
}

/// Every character a rendering may hold: digits, the sign, the point.
pub open spec fn render_char(c: char) -> bool {
    is_digit(c) || c == '-' || c == '.'
}

pub proof fn lemma_render_chars(c: Dec)
    requires
        c.wf(),
    ensures
        forall|k: int|
            0 <= k < render_dec(c).len() ==> render_char(#[trigger] render_dec(c)[k]),
        render_dec(c).len() >= 1,
{
    let a = if c.m < 0 {
        -(c.m as int)
    } else {
        c.m as int
    };
    let p = pow10(c.e as nat) as int;
    lemma_pow10_pos(c.e as nat);
    assert(a / p >= 0) by (nonlinear_arith)
        requires
            a >= 0,
            p >= 1,
    ;
    lemma_digits_of(a / p);
    if c.e > 0 {
        assert(0 <= a % p < p) by (nonlinear_arith)
            requires
                a >= 0,
                p >= 1,
        ;
        lemma_pad_digits(a % p, c.e as nat);
    }
}

/// Parsing the rendering of a well-formed, nonzero-safe decimal gives back
/// exactly the same mantissa and exponent.
pub proof fn lemma_dec_round_trip(c: Dec)
    requires
        c.wf(),
    ensures
        dec_of(render_dec(c)) == Some(c),
{
    let a = if c.m < 0 {
        -(c.m as int)
    } else {
        c.m as int
    };
    let p = pow10(c.e as nat) as int;
    lemma_pow10_pos(c.e as nat);
    assert(a / p >= 0 && 0 <= a % p < p && a == (a / p) * p + a % p) by (nonlinear_arith)
        requires
            a >= 0,
            p >= 1,
    ;
    let q = a / p;
    let rm = a % p;
    lemma_digits_of(q);
    let whole = digits_of(q);
    let l = render_dec(c);
    let sgn: int = if c.m < 0 {
        1
    } else {
        0
    };
    // The body of the rendering, after the sign.
    assert(l.len() > 0 && (c.m < 0 ==> l[0] == '-'));
    if c.m >= 0 {
        assert(is_digit(l[0]));
        assert(l[0] != '-' && l[0] != '+');
    }
    if c.e == 0 {
        assert(l =~= (if c.m < 0 {
            seq!['-'] + whole
        } else {
            whole
        }));
        assert(forall|k: int| sgn <= k < l.len() ==> is_digit(#[trigger] l[k]));
        lemma_dot_end_at(l, sgn, l.len() as int);
        assert(dot_end(l, sgn) == l.len());
        let intp = l.subrange(sgn, l.len() as int);
        assert(intp =~= whole);
        let digs = intp + Seq::<char>::empty();
        assert(digs =~= whole);
        assert(num_of(digs) == q);
        assert(p == 1);
        assert(q == a) by (nonlinear_arith)
            requires
                q == a / p,
                p == 1,
                a >= 0,
        ;
        assert(a <= MAX_ABS as int);
        let got = dec_of(l).unwrap();
        assert(got.e == 0);
        assert(got.m as int == (if c.m < 0 {
            -a
        } else {
            a
        }));
        assert(got.m == c.m);
        assert(got == c);
    } else {
        let padded = pad_digits(rm, c.e as nat);
        lemma_pad_digits(rm, c.e as nat);
        assert(l =~= (if c.m < 0 {
            seq!['-'] + whole + seq!['.'] + padded
        } else {
            whole + seq!['.'] + padded
        }));
        let dp = sgn + whole.len() as int;
        assert(forall|k: int| sgn <= k < dp ==> is_digit(#[trigger] l[k]) && l[k] != '.');
        assert(l[dp] == '.');
        lemma_dot_end_at(l, sgn, dp);
        assert(dot_end(l, sgn) == dp);
        let intp = l.subrange(sgn, dp);
        assert(intp =~= whole);
        let frac = l.subrange(dp + 1, l.len() as int);
        assert(frac =~= padded);
        let digs = intp + frac;
        lemma_num_of_concat(whole, padded);
        assert(digs =~= whole + padded);
        assert(num_of(digs) == q * p + rm);
        assert(q * p + rm == a);
        assert(num_of(digs) == a);
        assert(a <= MAX_ABS as int);
        assert(frac.len() == c.e as nat);
        let got = dec_of(l).unwrap();
        assert(got.e == c.e);
        assert(got.m as int == (if c.m < 0 {
            -a
        } else {
            a
        }));
        assert(got.m == c.m);
        assert(got == c);
    }
}

/// The digit value of a character, or `None` for any other character.
pub fn digit_value(c: char) -> (r: Option<u8>)
    ensures
        r is Some <==> is_digit(c),
        r matches Some(v) ==> v as int == digit_val(c),
{
    match c {
        '0' => Some(0),
        '1' => Some(1),
        '2' => Some(2),
        '3' => Some(3),
        '4' => Some(4),
        '5' => Some(5),
        '6' => Some(6),
        '7' => Some(7),
        '8' => Some(8),
        '9' => Some(9),
        _ => None,
    }
}

/// The character with a given digit value.
pub fn digit_character(v: i128) -> (r: char)
    requires
        0 <= v <= 9,
    ensures
        r == digit_char(v as int),
{
    if v == 0 {
        '0'
    } else if v == 1 {
        '1'
    } else if v == 2 {
        '2'
    } else if v == 3 {
        '3'
    } else if v == 4 {
        '4'
    } else if v == 5 {
        '5'
    } else if v == 6 {
        '6'
    } else if v == 7 {
        '7'
    } else if v == 8 {
        '8'
    } else {
        '9'
    }
}

/// Appends the shortest digit rendering of `x`.
pub fn push_digits(x: i128, out: &mut Vec<char>)
    requires
        x >= 0,
    ensures
        final(out)@ == old(out)@ + digits_of(x as int),
    decreases x,
{
    if x < 10 {
        out.push(digit_character(x));
        proof {
            assert(out@ =~= old(out)@ + seq![digit_char(x as int)]);
        }
    } else {
        let q = x / 10;
        let rm = x % 10;
        push_digits(q, out);
        out.push(digit_character(rm));
        proof {
            assert(out@ =~= old(out)@ + digits_of(x as int / 10).push(
                digit_char(x as int % 10),
            ));
        }
    }
}

/// Appends exactly `e` digits denoting `x`, left-padded with zeros.
pub fn push_pad(x: i128, e: u32, out: &mut Vec<char>)
    requires
        x >= 0,
    ensures
        final(out)@ == old(out)@ + pad_digits(x as int, e as nat),
    decreases e,
{
    if e == 0 {
        proof {
            assert(out@ =~= old(out)@ + pad_digits(x as int, 0));
        }
    } else {
        let q = x / 10;
        let rm = x % 10;
        push_pad(q, e - 1, out);
        out.push(digit_character(rm));
        proof {
            assert(out@ =~= old(out)@ + pad_digits(x as int / 10, (e - 1) as nat).push(
                digit_char(x as int % 10),
            ));
        }
    }
}

/// Appends the rendering of one coefficient.
pub fn push_dec(c: &Dec, out: &mut Vec<char>)
    requires
        c.wf(),
    ensures
        final(out)@ == old(out)@ + render_dec(*c),
{
    let a = if c.m < 0 {
        -c.m
    } else {
        c.m
    };
    let p = crate::num::pow10_i128(c.e);
    proof {
        assert(a / p >= 0 && 0 <= a % p < p) by (nonlinear_arith)
            requires
                a >= 0,
                p >= 1,
        ;
    }
    let q = a / p;
    let rm = a % p;
    if c.m < 0 {
        out.push('-');
    }
    push_digits(q, out);
    if c.e > 0 {
        out.push('.');
        push_pad(rm, c.e, out);
    }
    proof {
        let whole = digits_of(a as int / p as int);
        if c.e > 0 {
            let tail = seq!['.'] + pad_digits(a as int % p as int, c.e as nat);
            if c.m < 0 {
                assert(out@ =~= old(out)@ + (seq!['-'] + (whole + tail)));
            } else {
                assert(out@ =~= old(out)@ + (whole + tail));
            }
        } else {
            if c.m < 0 {
                assert(out@ =~= old(out)@ + (seq!['-'] + (whole + Seq::<char>::empty())));
            } else {
                assert(out@ =~= old(out)@ + (whole + Seq::<char>::empty()));
            }
        }
    }
}

/// Parses the characters `[from, to)` of `s` as one decimal number.
pub fn parse_dec_range(s: &str, from: usize, to: usize) -> (r: Option<Dec>)
    requires
        from <= to <= s@.len(),
    ensures
        r == dec_of(s@.subrange(from as int, to as int)),
{
    let ghost l = s@.subrange(from as int, to as int);
    let mut neg = false;
    let mut i = from;
    if i < to {
        let c0 = s.get_char(i);
        if c0 == '-' {
            neg = true;
            i = i + 1;
        } else if c0 == '+' {
            i = i + 1;
        }
    }
    let ghost sgn: int = i - from;
    proof {
        assert(l.len() == to - from);
        assert(forall|k: int| 0 <= k < l.len() ==> l[k] == s@[from + k]);
        assert(sgn == (if l.len() > 0 && (l[0] == '-' || l[0] == '+') {
            1int
        } else {
            0int
        }));
        assert(neg == (l.len() > 0 && l[0] == '-'));
    }
    let mut acc: i128 = 0;
    let mut too_big = false;
    let mut saw_dot = false;
    let mut dot_abs: usize = 0;
    let mut j = i;
    while j < to
        invariant
            from <= i <= j <= to <= s@.len(),
            l == s@.subrange(from as int, to as int),
            l.len() == to - from,
            sgn == i - from,
            0 <= sgn <= 1,
            sgn == (if l.len() > 0 && (l[0] == '-' || l[0] == '+') {
                1int
            } else {
                0int
            }),
            neg == (l.len() > 0 && l[0] == '-'),
            forall|k: int| 0 <= k < l.len() ==> l[k] == s@[from + k],
            !saw_dot ==> forall|k: int| sgn <= k < j - from ==> l[k] != '.' && is_digit(l[k]),
            saw_dot ==> i <= dot_abs < j && l[dot_abs - from] == '.' && (forall|k: int|
                sgn <= k < dot_abs - from ==> l[k] != '.' && is_digit(l[k])) && (forall|k: int|
                dot_abs - from < k < j - from ==> is_digit(l[k])),
            0 <= acc <= MAX_ABS,
            ({
                let pref = if saw_dot {
                    l.subrange(sgn, dot_abs - from) + l.subrange(dot_abs + 1 - from, j - from)
                } else {
                    l.subrange(sgn, j - from)
                };
                &&& (!too_big ==> acc as int == num_of(pref))
                &&& (too_big <==> num_of(pref) > MAX_ABS as int)
            }),
        decreases to - j,
    {
        let ghost pref = if saw_dot {
            l.subrange(sgn, dot_abs - from) + l.subrange(dot_abs + 1 - from, j - from)
        } else {
            l.subrange(sgn, j - from)
        };
        let c = s.get_char(j);
        proof {
            assert(l[j - from] == c);
        }
        if c == '.' {
            if saw_dot {
                proof {
                    let dp = dot_end(l, sgn);
                    lemma_dot_end_at(l, sgn, dot_abs - from);
                    assert(dp == dot_abs - from);
                    let frac = l.subrange(dp + 1, l.len() as int);
                    assert(frac[j - from - (dp + 1)] == '.');
                    assert(!is_digit('.'));
                    assert(!all_digits(frac));
                    assert(dec_of(l) is None);
                }
                return None;
            }
            saw_dot = true;
            dot_abs = j;
            proof {
                assert(l.subrange(sgn, dot_abs - from) + l.subrange(
                    dot_abs + 1 - from,
                    j + 1 - from,
                ) =~= pref);
            }
        } else {
            match digit_value(c) {
                None => {
                    proof {
                        if saw_dot {
                            let dp = dot_end(l, sgn);
                            lemma_dot_end_at(l, sgn, dot_abs - from);
                            assert(dp == dot_abs - from);
                            let frac = l.subrange(dp + 1, l.len() as int);
                            assert(frac[j - from - (dp + 1)] == c);
                            assert(!all_digits(frac));
                            assert(dec_of(l) is None);
                        } else {
                            lemma_dot_end_lb(l, sgn, j + 1 - from);
                            let dp = dot_end(l, sgn);
                            lemma_dot_end_bounds(l, sgn);
                            let intp = l.subrange(sgn, dp);
                            assert(intp[j - from - sgn] == c);
                            assert(!all_digits(intp));
                            assert(dec_of(l) is None);
                        }
                    }
                    return None;
                },
                Some(v) => {
                    let ghost pref2 = pref.push(c);
                    proof {
                        if saw_dot {
                            assert(l.subrange(sgn, dot_abs - from) + l.subrange(
                                dot_abs + 1 - from,
                                j + 1 - from,
                            ) =~= pref2);
                        } else {
                            assert(l.subrange(sgn, j + 1 - from) =~= pref2);
                        }
                        assert(pref2.drop_last() =~= pref);
                        assert(num_of(pref2) == num_of(pref) * 10 + digit_val(c));
                    }
                    if too_big {
                        proof {
                            lemma_num_of_nonneg_step(pref, c);
                        }
                    } else {
                        let acc2 = acc * 10 + (v as i128);
                        if acc2 > MAX_ABS {
                            too_big = true;
                        } else {
                            acc = acc2;
                        }
                    }
                },
            }
        }
        j = j + 1;
    }
    // The whole range is scanned; relate the pieces to the specification.
    proof {
        if saw_dot {
            lemma_dot_end_at(l, sgn, dot_abs - from);
        } else {
            lemma_dot_end_at(l, sgn, l.len() as int);
        }
    }
    let ghost dp = dot_end(l, sgn);
    let ghost intp = l.subrange(sgn, dp);
    let ghost frac = if dp < l.len() {
        l.subrange(dp + 1, l.len() as int)
    } else {
        Seq::<char>::empty()
    };
    proof {
        if saw_dot {
            assert(dp == dot_abs - from);
            assert(intp + frac =~= l.subrange(sgn, dot_abs - from) + l.subrange(
                dot_abs + 1 - from,
                to - from,
            ));
        } else {
            assert(dp == l.len());
            assert(frac =~= Seq::<char>::empty());
            assert(intp + frac =~= l.subrange(sgn, to - from));
        }
        assert(all_digits(intp));
        assert(all_digits(frac));
    }
    if too_big {
        proof {
            assert(num_of(intp + frac) > MAX_ABS as int);
            assert(dec_of(l) is None);
        }
        return None;
    }
    let ndigits = (to - i) - (if saw_dot {
        1
    } else {
        0
    });
    if ndigits == 0 {
        proof {
            assert((intp + frac).len() == 0);
            assert(dec_of(l) is None);
        }
        return None;
    }
    let e: u32 = if saw_dot {
        let flen = to - dot_abs - 1;
        if flen > 30 {
            proof {
                assert(frac.len() > MAX_FRAC as nat);
                assert(dec_of(l) is None);
            }
            return None;
        }
        flen as u32
    } else {
        0
    };
    proof {
        assert((intp + frac).len() >= 1);
        assert(num_of(intp + frac) == acc as int);
        assert(num_of(intp + frac) <= MAX_ABS as int);
        assert(frac.len() == e as nat);
        lemma_num_of_nonneg(intp + frac);
    }
    let m = if neg {
        -acc
    } else {
        acc
    };
    Some(Dec { m, e })
}

/// One appended digit keeps an overflowing prefix overflowing.
proof fn lemma_num_of_nonneg_step(pref: Seq<char>, c: char)
    requires
        num_of(pref) > MAX_ABS as int,
        num_of(pref.push(c)) == num_of(pref) * 10 + digit_val(c),
    ensures
        num_of(pref.push(c)) > MAX_ABS as int,
{
    assert(num_of(pref) * 10 >= num_of(pref)) by (nonlinear_arith)
        requires
            num_of(pref) > 0,
    ;
}

/// Relies on `String::push`: appends one character to the string.
#[verifier::external_body]
fn push_char(s: &mut String, c: char)
    ensures
        final(s)@ == old(s)@.push(c),
{
    s.push(c)
}

/// A `String` holding exactly the given characters.
pub fn chars_to_string(v: &Vec<char>) -> (r: String)
    ensures
        r@ == v@,
{
    let mut out = String::from_str("");
    proof {
        reveal_strlit("");
        assert(out@ =~= v@.subrange(0, 0));
    }
    let mut k: usize = 0;
    while k < v.len()
        invariant
            k <= v.len(),
            out@ == v@.subrange(0, k as int),
        decreases v.len() - k,
    {
        push_char(&mut out, v[k]);
        proof {
            assert(out@ =~= v@.subrange(0, k + 1));
        }
        k = k + 1;
    }
    proof {
        assert(out@ =~= v@);
    }
    out
}

} // verus!
