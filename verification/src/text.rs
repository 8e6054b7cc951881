//! Character-level helpers shared by the rule tokenizer and the renderers.

use vstd::prelude::*;
use vstd::utf8::encode_utf8;

verus! {

/// The characters of `s` with the byte position at which each starts
/// (`str::char_indices`): the position of the character at index `i` is the
/// length of the UTF-8 encoding of the characters before it.
#[verifier::external_body]
pub(crate) fn char_indices(s: &str) -> (v: Vec<(usize, char)>)
    ensures
        v@.len() == s@.len(),
        forall|i: int|
            0 <= i < v@.len() ==> (#[trigger] v@[i]).1 == s@[i] && v@[i].0 as int
                == encode_utf8(s@.take(i)).len(),
{
    s.char_indices().collect()
}

/// The characters of `s`, in order.
pub(crate) fn chars_of(s: &str) -> (cs: Vec<char>)
    ensures
        cs@ == s@,
{
    let mut cs: Vec<char> = Vec::new();
    for c in it: s.chars()
        invariant
            cs@ == it.seq().take(it.index() as int),
    {
        cs.push(c);
    }
    cs
}

/// Appends one character to `s` (`String::push`).
#[verifier::external_body]
pub(crate) fn push_char(s: &mut String, c: char)
    ensures
        final(s)@ == old(s)@.push(c),
{
    s.push(c);
}

/// String equality: true exactly when the two texts hold the same
/// characters.
pub(crate) fn text_eq(a: &str, b: &str) -> (r: bool)
    ensures
        r == (a@ == b@),
{
    let x = chars_of(a);
    let y = chars_of(b);
    if x.len() != y.len() {
        return false;
    }
    let n = x.len();
    let mut i: usize = 0;
    while i < n
        invariant
            n == x@.len() == y@.len(),
            x@ == a@,
            y@ == b@,
            i <= n,
            forall|k: int| 0 <= k < i ==> x@[k] == y@[k],
        decreases n - i,
    {
        if x[i] != y[i] {
            return false;
        }
        i = i + 1;
    }
    assert(x@ =~= y@);
    true
}

/// The code points that carry the Unicode `White_Space` property.
pub open spec fn is_unicode_whitespace(c: char) -> bool {
    let u = c as u32;
    ||| 0x09 <= u <= 0x0d
    ||| u == 0x20
    ||| u == 0x85
    ||| u == 0xa0
    ||| u == 0x1680
    ||| 0x2000 <= u <= 0x200a
    ||| u == 0x2028
    ||| u == 0x2029
    ||| u == 0x202f
    ||| u == 0x205f
    ||| u == 0x3000
}

/// Whether `c` is whitespace (`char::is_whitespace`, the Unicode
/// `White_Space` property).
pub(crate) fn char_is_whitespace(c: char) -> (b: bool)
    ensures
        b == is_unicode_whitespace(c),
{
    let u = c as u32;
    (0x09 <= u && u <= 0x0d) || u == 0x20 || u == 0x85 || u == 0xa0 || u == 0x1680 || (0x2000 <= u
        && u <= 0x200a) || u == 0x2028 || u == 0x2029 || u == 0x202f || u == 0x205f || u == 0x3000
}

/// An ASCII letter (`char::is_ascii_alphabetic`).
pub open spec fn is_ascii_letter(c: char) -> bool {
    ('a' <= c && c <= 'z') || ('A' <= c && c <= 'Z')
}

/// An ASCII letter or digit (`char::is_ascii_alphanumeric`).
pub open spec fn is_ascii_letter_or_digit(c: char) -> bool {
    is_ascii_letter(c) || ('0' <= c && c <= '9')
}

/// The character of a decimal digit.
pub open spec fn digit_char(d: nat) -> char
    recommends
        d < 10,
{
    (d + 48) as char
}

/// The decimal notation of `n`, without leading zeros.
pub open spec fn decimal(n: nat) -> Seq<char>
    decreases n,
{
    if n < 10 {
        seq![digit_char(n)]
    } else {
        decimal(n / 10).push(digit_char(n % 10))
    }
}

/// The decimal notation of a signed integer: a minus sign before the
/// digits of its magnitude when it is negative.
pub open spec fn signed_decimal(x: int) -> Seq<char> {
    if x < 0 {
        seq!['-'].add(decimal((-x) as nat))
    } else {
        decimal(x as nat)
    }
}

/// `usize::to_string`: std's `Display` for integers writes the decimal
/// notation, without sign or padding.
#[verifier::external_body]
pub(crate) fn usize_text(n: usize) -> (s: String)
    ensures
        s@ == decimal(n as nat),
{
    n.to_string()
}

/// `i64::to_string`: the decimal notation, with a leading `-` for negative
/// values.
#[verifier::external_body]
pub(crate) fn i64_text(x: i64) -> (s: String)
    ensures
        s@ == signed_decimal(x as int),
{
    x.to_string()
}

/// What `format!("{:?}", s)` writes for a string: a quoted, escaped
/// rendering whose full rules live in std's `Debug` for `str`.
pub uninterp spec fn str_debug(s: Seq<char>) -> Seq<char>;

/// `Debug` for `str`, as `format!("{:?}", s)` writes it.
#[verifier::external_body]
pub(crate) fn debug_text(s: &str) -> (r: String)
    ensures
        r@ == str_debug(s@),
{
    format!("{:?}", s)
}

} // verus!
