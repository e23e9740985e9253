//! Which number literals the language accepts: the decimal-float syntax that
//! Rust's `str::parse` reads as a floating-point number.
use vstd::prelude::*;
use crate::text::chars_of;

verus! {

pub open spec fn is_ascii_digit(c: char) -> bool {
    '0' <= c && c <= '9'
}

pub open spec fn is_sign(c: char) -> bool {
    c == '+' || c == '-'
}

/// `s` without one leading sign.
pub open spec fn without_sign(s: Seq<char>) -> Seq<char> {
    if s.len() > 0 && is_sign(s[0]) {
        s.skip(1)
    } else {
        s
    }
}

/// `c` with an ASCII capital letter made small.
pub open spec fn ascii_fold(c: char) -> char {
    if 'A' <= c && c <= 'Z' {
        ((c as u32) + 32) as char
    } else {
        c
    }
}

/// `s` equals the lower-case word `w` up to the case of ASCII letters.
pub open spec fn is_word_ignoring_case(s: Seq<char>, w: Seq<char>) -> bool {
    s.len() == w.len() && forall|i: int| 0 <= i < s.len() ==> ascii_fold(#[trigger] s[i]) == w[i]
}

/// The position of the first exponent mark `e` or `E` at or after `i`, or the length.
pub open spec fn exponent_mark(s: Seq<char>, i: int) -> int
    decreases s.len() - i,
{
    if 0 <= i < s.len() && s[i] != 'e' && s[i] != 'E' {
        exponent_mark(s, i + 1)
    } else {
        i
    }
}

/// Digits with at most one decimal point, and at least one digit.
pub open spec fn is_mantissa(m: Seq<char>) -> bool {
    &&& forall|i: int| 0 <= i < m.len() ==> is_ascii_digit(#[trigger] m[i]) || m[i] == '.'
    &&& forall|i: int, j: int| 0 <= i < j < m.len() ==> !(#[trigger] m[i] == '.' && #[trigger] m[j] == '.')
    &&& exists|i: int| 0 <= i < m.len() && is_ascii_digit(#[trigger] m[i])
}

/// An optional sign and at least one digit.
pub open spec fn is_exponent(x: Seq<char>) -> bool {
    let d = without_sign(x);
    d.len() > 0 && forall|i: int| 0 <= i < d.len() ==> is_ascii_digit(#[trigger] d[i])
}

/// A mantissa, then optionally `e` or `E` and an exponent.
pub open spec fn is_decimal_number(b: Seq<char>) -> bool {
    let i: int = exponent_mark(b, 0);
    is_mantissa(b.take(i)) && (i == b.len() || is_exponent(b.skip(i + 1)))
}

/// Whether `str::parse::<f64>` accepts `s`: an optional sign, then a decimal
/// number, or `inf`, `infinity` or `nan` in any ASCII case.
pub open spec fn is_float_literal(s: Seq<char>) -> bool {
    let b = without_sign(s);
    ||| is_decimal_number(b)
    ||| is_word_ignoring_case(b, "inf"@)
    ||| is_word_ignoring_case(b, "infinity"@)
    ||| is_word_ignoring_case(b, "nan"@)
}

fn fold(c: char) -> (r: char)
    ensures
        r == ascii_fold(c),
{
    if 'A' <= c && c <= 'Z' {
        (((c as u32) + 32) as u8) as char
    } else {
        c
    }
}

fn copy_from(v: &Vec<char>, start: usize) -> (b: Vec<char>)
    requires
        start <= v@.len(),
    ensures
        b@ == v@.skip(start as int),
{
    let mut b: Vec<char> = Vec::new();
    let mut k: usize = start;
    while k < v.len()
        invariant
            start <= k <= v@.len(),
            b@ == v@.subrange(start as int, k as int),
        decreases v@.len() - k,
    {
        b.push(v[k]);
        k += 1;
        assert(b@ =~= v@.subrange(start as int, k as int));
    }
    assert(b@ =~= v@.skip(start as int));
    b
}

fn is_word_ci(b: &Vec<char>, word: &str) -> (r: bool)
    ensures
        r == is_word_ignoring_case(b@, word@),
{
    let w = chars_of(&String::from_str(word));
    if b.len() != w.len() {
        return false;
    }
    let mut k: usize = 0;
    while k < b.len()
        invariant
            b@.len() == w@.len(),
            w@ == word@,
            k <= b@.len(),
            forall|i: int| 0 <= i < k ==> ascii_fold(#[trigger] b@[i]) == w@[i],
        decreases b@.len() - k,
    {
        if fold(b[k]) != w[k] {
            return false;
        }
        k += 1;
    }
    true
}

fn exponent_mark_of(b: &Vec<char>) -> (i: usize)
    ensures
        i == exponent_mark(b@, 0),
        i <= b@.len(),
{
    let mut i: usize = 0;
    while i < b.len() && b[i] != 'e' && b[i] != 'E'
        invariant
            i <= b@.len(),
            exponent_mark(b@, i as int) == exponent_mark(b@, 0),
        decreases b@.len() - i,
    {
        i += 1;
    }
    i
}

fn mantissa_ok(b: &Vec<char>, hi: usize) -> (r: bool)
    requires
        hi <= b@.len(),
    ensures
        r == is_mantissa(b@.take(hi as int)),
{
    let ghost m = b@.take(hi as int);
    let mut seen_dot = false;
    let mut seen_digit = false;
    let mut k: usize = 0;
    while k < hi
        invariant
            hi <= b@.len(),
            m == b@.take(hi as int),
            k <= hi,
            forall|i: int| 0 <= i < k ==> is_ascii_digit(#[trigger] m[i]) || m[i] == '.',
            forall|i: int, j: int| 0 <= i < j < k ==> !(#[trigger] m[i] == '.' && #[trigger] m[j] == '.'),
            seen_dot <==> exists|i: int| 0 <= i < k && #[trigger] m[i] == '.',
            seen_digit <==> exists|i: int| 0 <= i < k && is_ascii_digit(#[trigger] m[i]),
        decreases hi - k,
    {
        let c = b[k];
        assert(m[k as int] == c);
        if '0' <= c && c <= '9' {
            seen_digit = true;
        } else if c == '.' {
            if seen_dot {
                proof {
                    let i: int = choose|i: int| 0 <= i < k && #[trigger] m[i] == '.';
                    assert(m[i] == '.' && m[k as int] == '.');
                }
                return false;
            }
            seen_dot = true;
        } else {
            return false;
        }
        k += 1;
    }
    seen_digit
}

fn exponent_ok(b: &Vec<char>, lo: usize) -> (r: bool)
    requires
        lo <= b@.len(),
    ensures
        r == is_exponent(b@.skip(lo as int)),
{
    let ghost x = b@.skip(lo as int);
    let mut k: usize = lo;
    if k < b.len() && (b[k] == '+' || b[k] == '-') {
        k += 1;
    }
    let ghost d = without_sign(x);
    assert(d =~= b@.skip(k as int));
    if k >= b.len() {
        return false;
    }
    let start: usize = k;
    while k < b.len()
        invariant
            start <= k <= b@.len(),
            d == b@.skip(start as int),
            d == without_sign(b@.skip(lo as int)),
            d.len() > 0,
            forall|i: int| 0 <= i < k - start ==> is_ascii_digit(#[trigger] d[i]),
        decreases b@.len() - k,
    {
        let c = b[k];
        assert(d[k - start] == c);
        if !('0' <= c && c <= '9') {
            assert(!is_ascii_digit(d[k - start]));
            return false;
        }
        k += 1;
    }
    true
}

/// Whether `s` is a literal that `str::parse::<f64>` accepts.
pub fn is_float_literal_text(s: &String) -> (r: bool)
    ensures
        r == is_float_literal(s@),
{
    let v = chars_of(s);
    let start: usize = if v.len() > 0 && (v[0] == '+' || v[0] == '-') { 1 } else { 0 };
    let b = copy_from(&v, start);
    assert(b@ == without_sign(s@));
    let i: usize = exponent_mark_of(&b);
    let number = mantissa_ok(&b, i) && (i == b.len() || exponent_ok(&b, i + 1));
    number || is_word_ci(&b, "inf") || is_word_ci(&b, "infinity") || is_word_ci(&b, "nan")
}

} // verus!
