//! Character classes, decimal rendering and small string helpers shared by
//! the compiler stages.
use vstd::prelude::*;

verus! {

/// Whether `c` has the Unicode `White_Space` property, which `char::is_whitespace`
/// tests: U+0009 to U+000D, U+0020, U+0085, U+00A0, U+1680, U+2000 to U+200A,
/// U+2028, U+2029, U+202F, U+205F and U+3000.
pub open spec fn char_is_whitespace(c: char) -> bool {
    let n = c as u32;
    ||| 0x9 <= n <= 0xD
    ||| n == 0x20
    ||| n == 0x85
    ||| n == 0xA0
    ||| n == 0x1680
    ||| 0x2000 <= n <= 0x200A
    ||| n == 0x2028
    ||| n == 0x2029
    ||| n == 0x202F
    ||| n == 0x205F
    ||| n == 0x3000
}

/// Whether `c`, a character beyond ASCII that is not whitespace, belongs to a
/// Unicode number category (Nd, Nl or No): what `char::is_numeric` answers for it.
pub uninterp spec fn unicode_numeric(c: char) -> bool;

/// Whether `c`, a character beyond ASCII that is not whitespace, has the
/// Unicode `Alphabetic` property: what `char::is_alphabetic` answers for it.
pub uninterp spec fn unicode_alphabetic(c: char) -> bool;

/// Whether `c` belongs to a Unicode number category (Nd, Nl, No), as
/// `char::is_numeric` decides. In ASCII these are the digits `0` to `9`; no
/// whitespace character is among them (whitespace is in Cc, Zs, Zl or Zp).
pub open spec fn char_is_numeric(c: char) -> bool {
    let n = c as u32;
    if n < 0x80 {
        0x30 <= n <= 0x39
    } else if char_is_whitespace(c) {
        false
    } else {
        unicode_numeric(c)
    }
}

/// Whether `c` has the Unicode `Alphabetic` property, as `char::is_alphabetic`
/// decides. In ASCII these are the letters `A` to `Z` and `a` to `z`; no
/// whitespace character has it.
pub open spec fn char_is_alphabetic(c: char) -> bool {
    let n = c as u32;
    if n < 0x80 {
        (0x41 <= n <= 0x5A) || (0x61 <= n <= 0x7A)
    } else if char_is_whitespace(c) {
        false
    } else {
        unicode_alphabetic(c)
    }
}

/// Whether `c` is whitespace, as `char::is_whitespace` decides.
pub(crate) fn is_whitespace(c: char) -> (r: bool)
    ensures
        r == char_is_whitespace(c),
{
    let n = c as u32;
    (0x9 <= n && n <= 0xD) || n == 0x20 || n == 0x85 || n == 0xA0 || n == 0x1680 || (0x2000 <= n
        && n <= 0x200A) || n == 0x2028 || n == 0x2029 || n == 0x202F || n == 0x205F || n == 0x3000
}

/// Calls `char::is_numeric`. Claimed of it: in ASCII it holds of the digits
/// alone, it never holds of whitespace, and elsewhere it answers
/// `unicode_numeric`, which is left unstated here (a Unicode table).
#[verifier::external_body]
pub(crate) fn is_numeric(c: char) -> (r: bool)
    ensures
        r == char_is_numeric(c),
        (c as u32) >= 0x80 && !char_is_whitespace(c) ==> r == unicode_numeric(c),
{
    c.is_numeric()
}

/// Calls `char::is_alphabetic`. Claimed of it: in ASCII it holds of the
/// letters alone, it never holds of whitespace, and elsewhere it answers
/// `unicode_alphabetic`, which is left unstated here (a Unicode table).
#[verifier::external_body]
pub(crate) fn is_alphabetic(c: char) -> (r: bool)
    ensures
        r == char_is_alphabetic(c),
        (c as u32) >= 0x80 && !char_is_whitespace(c) ==> r == unicode_alphabetic(c),
{
    c.is_alphabetic()
}

/// Whether `c` is alphabetic or numeric, as `char::is_alphanumeric` decides.
pub(crate) fn is_alphanumeric(c: char) -> (r: bool)
    ensures
        r == (char_is_alphabetic(c) || char_is_numeric(c)),
{
    is_alphabetic(c) || is_numeric(c)
}

/// Calls `String::push`: the character is appended at the end.
#[verifier::external_body]
pub(crate) fn push_char(s: &mut String, c: char)
    ensures
        final(s)@ == old(s)@.push(c),
{
    s.push(c)
}

/// The characters of `s`, in order.
pub(crate) fn chars_of(s: &String) -> (v: Vec<char>)
    ensures
        v@ == s@,
{
    let mut v: Vec<char> = Vec::new();
    for c in it: s.as_str().chars()
        invariant
            v@ == it.seq().take(it.index() as int),
    {
        v.push(c);
    }
    v
}

/// Whether the text of `s` is exactly `lit`.
pub(crate) fn text_is(s: &String, lit: &str) -> (r: bool)
    ensures
        r == (s@ == lit@),
{
    *s == String::from_str(lit)
}

/// The decimal digit `d` (`d < 10`) as a character.
pub open spec fn digit_char(d: nat) -> char {
    if d == 0 {
        '0'
    } else if d == 1 {
        '1'
    } else if d == 2 {
        '2'
    } else if d == 3 {
        '3'
    } else if d == 4 {
        '4'
    } else if d == 5 {
        '5'
    } else if d == 6 {
        '6'
    } else if d == 7 {
        '7'
    } else if d == 8 {
        '8'
    } else {
        '9'
    }
}

/// The decimal notation of `n`, without sign or leading zeros: what `Display`
/// writes for an unsigned integer.
pub open spec fn decimal(n: nat) -> Seq<char>
    decreases n,
{
    if n < 10 {
        seq![digit_char(n)]
    } else {
        decimal(n / 10).push(digit_char(n % 10))
    }
}

fn digit(d: usize) -> (c: char)
    requires
        d < 10,
    ensures
        c == digit_char(d as nat),
{
    if d == 0 {
        '0'
    } else if d == 1 {
        '1'
    } else if d == 2 {
        '2'
    } else if d == 3 {
        '3'
    } else if d == 4 {
        '4'
    } else if d == 5 {
        '5'
    } else if d == 6 {
        '6'
    } else if d == 7 {
        '7'
    } else if d == 8 {
        '8'
    } else {
        '9'
    }
}

/// Appends the decimal notation of `n` to `s`.
pub(crate) fn push_decimal(s: &mut String, n: usize)
    ensures
        final(s)@ == old(s)@ + decimal(n as nat),
    decreases n,
{
    if n >= 10 {
        push_decimal(s, n / 10);
    }
    let c = digit(n % 10);
    push_char(s, c);
    proof {
        if n >= 10 {
            assert(old(s)@ + decimal(n as nat) =~= old(s)@ + decimal((n / 10) as nat) + seq![c]);
        } else {
            assert(old(s)@ + decimal(n as nat) =~= old(s)@ + seq![c]);
        }
    }
}

/// The decimal notation of `n`, as `n.to_string()` gives it.
pub fn usize_to_string(n: usize) -> (s: String)
    ensures
        s@ == decimal(n as nat),
{
    let mut s = String::new();
    push_decimal(&mut s, n);
    assert(s@ =~= decimal(n as nat));
    s
}

} // verus!
