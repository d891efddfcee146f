//! Character classes and small helpers used by the parser.

use vstd::prelude::*;

verus! {

/// What `char::is_alphabetic` answers for a character outside ASCII (the Unicode
/// `Alphabetic` property of the standard library's tables).
pub uninterp spec fn std_is_alphabetic_non_ascii(c: char) -> bool;

/// ASCII whitespace as `char::is_whitespace` defines it on ASCII.
pub open spec fn ascii_whitespace(c: char) -> bool {
    c == ' ' || c == '\t' || c == '\n' || c == '\x0b' || c == '\x0c' || c == '\r'
}

/// The characters with the Unicode `White_Space` property: the ASCII ones, next line (U+0085),
/// no-break space (U+00A0), Ogham space mark (U+1680), the spaces U+2000 to U+200A, line and
/// paragraph separators (U+2028, U+2029), narrow no-break space (U+202F), medium mathematical
/// space (U+205F) and ideographic space (U+3000).
pub open spec fn unicode_whitespace(c: char) -> bool {
    let u = c as u32;
    ||| ascii_whitespace(c)
    ||| u == 0x85 || u == 0xa0 || u == 0x1680
    ||| 0x2000 <= u <= 0x200a
    ||| u == 0x2028 || u == 0x2029 || u == 0x202f || u == 0x205f || u == 0x3000
}

/// Unicode alphabetic: exact on ASCII, the standard library's table elsewhere.
pub open spec fn unicode_alphabetic(c: char) -> bool {
    if (c as u32) < 0x80 {
        ('a' <= c && c <= 'z') || ('A' <= c && c <= 'Z')
    } else {
        std_is_alphabetic_non_ascii(c)
    }
}

/// `char::is_whitespace`. Its documentation: true for characters with the Unicode
/// `White_Space` property, whose members the contract lists (see `unicode_whitespace`).
#[verifier::external_body]
pub(crate) fn char_is_whitespace(c: char) -> (r: bool)
    ensures
        r == unicode_whitespace(c),
{
    c.is_whitespace()
}

/// `char::is_alphabetic`. Its documentation: true for characters with the Unicode
/// `Alphabetic` property; on ASCII these are exactly the letters a-z and A-Z. The
/// contract states the ASCII answers and names the answer elsewhere.
#[verifier::external_body]
pub(crate) fn char_is_alphabetic(c: char) -> (r: bool)
    ensures
        r == (if (c as u32) < 0x80 {
            ('a' <= c && c <= 'z') || ('A' <= c && c <= 'Z')
        } else {
            std_is_alphabetic_non_ascii(c)
        }),
{
    c.is_alphabetic()
}

} // verus!

verus! {

/// The character that a backslash followed by `ch` stands for in a string.
pub open spec fn spec_escape_char(ch: char) -> Option<char> {
    if ch == '\\' {
        Some('\\')
    } else if ch == '"' {
        Some('"')
    } else if ch == '\'' {
        Some('\'')
    } else if ch == '$' {
        Some('$')
    } else if ch == 'n' {
        Some('\n')
    } else if ch == 'r' {
        Some('\r')
    } else if ch == 't' {
        Some('\t')
    } else {
        None
    }
}

/// If `ch` preceded by a backslash together form an escape character, then return this char.
/// Otherwise, return None.
pub fn get_escape_char(ch: char) -> (r: Option<char>)
    ensures
        r == spec_escape_char(ch),
{
    if ch == '\\' {
        Some('\\')
    } else if ch == '"' {
        Some('"')
    } else if ch == '\'' {
        Some('\'')
    } else if ch == '$' {
        Some('$')
    } else if ch == 'n' {
        Some('\n')
    } else if ch == 'r' {
        Some('\r')
    } else if ch == 't' {
        Some('\t')
    } else {
        None
    }
}

/// Whitespace, or '#' (the start of a comment).
pub open spec fn spec_is_whitespace(ch: char) -> bool {
    unicode_whitespace(ch) || ch == '#'
}

/// A closing bracket of a container or an include.
pub open spec fn spec_is_end_delimiter(ch: char) -> bool {
    ch == ')' || ch == ']' || ch == '}' || ch == '>'
}

/// One of the characters of the binary operators.
pub open spec fn spec_is_op(ch: char) -> bool {
    ch == '+' || ch == '-' || ch == '*' || ch == '/' || ch == '%'
}

/// A character that may legally follow a value.
pub open spec fn spec_is_value_end_char(ch: char) -> bool {
    spec_is_whitespace(ch) || spec_is_end_delimiter(ch) || spec_is_op(ch)
}

/// An ASCII decimal digit.
pub open spec fn spec_is_digit(ch: char) -> bool {
    '0' <= ch && ch <= '9'
}

/// A character that may appear in a number.
pub open spec fn spec_is_numeric_char(ch: char) -> bool {
    spec_is_digit(ch) || ch == '.' || ch == ','
}

/// Returns true if this character signifies the legal end of a value.
pub fn is_value_end_char(ch: char) -> (r: bool)
    ensures
        r == spec_is_value_end_char(ch),
{
    is_whitespace(ch) || is_end_delimiter(ch) || super::BinaryOp::is_op(ch)
}

/// Returns true if the character is either whitespace or '#' (start of a comment).
pub fn is_whitespace(ch: char) -> (r: bool)
    ensures
        r == spec_is_whitespace(ch),
{
    char_is_whitespace(ch) || ch == '#'
}

/// Returns true if the character closes a container or an include.
pub fn is_end_delimiter(ch: char) -> (r: bool)
    ensures
        r == spec_is_end_delimiter(ch),
{
    ch == ')' || ch == ']' || ch == '}' || ch == '>'
}

/// Returns true if the character may appear in a number: a digit, '.' or ','.
pub fn is_numeric_char(ch: char) -> (r: bool)
    ensures
        r == spec_is_numeric_char(ch),
{
    is_digit(ch) || ch == '.' || ch == ','
}

/// Returns true if `ch` is an ASCII decimal digit.
pub fn is_digit(ch: char) -> (r: bool)
    ensures
        r == spec_is_digit(ch),
{
    '0' <= ch && ch <= '9'
}

/// Returns true if the two strings hold the same characters.
pub fn str_equals(a: &str, b: &str) -> (r: bool)
    ensures
        r == (a@ == b@),
{
    let n = a.unicode_len();
    let m = b.unicode_len();
    if n != m {
        return false;
    }
    let mut i: usize = 0;
    while i < n
        invariant
            n == a@.len(),
            m == b@.len(),
            n == m,
            i <= n,
            forall|j: int| 0 <= j < i ==> a@[j] == b@[j],
        decreases n - i,
    {
        if a.get_char(i) != b.get_char(i) {
            return false;
        }
        i = i + 1;
    }
    assert(a@ =~= b@);
    true
}

/// The words that cannot be used as field names.
pub open spec fn spec_is_reserved(field: Seq<char>) -> bool {
    field == "@"@ || field == "null"@ || field == "true"@ || field == "false"@ || field == "Obj"@
        || field == "Str"@ || field == "Arr"@ || field == "Tup"@
}

/// Returns true if `field` is one of the reserved words.
pub fn is_reserved(field: &str) -> (r: bool)
    ensures
        r == spec_is_reserved(field@),
{
    str_equals(field, "@") || str_equals(field, "null") || str_equals(field, "true")
        || str_equals(field, "false") || str_equals(field, "Obj") || str_equals(field, "Str")
        || str_equals(field, "Arr") || str_equals(field, "Tup")
}

} // verus!

verus! {

/// `whole + decimal / 10^dec_len` as a fraction in lowest terms.
pub fn frac_from_whole_and_dec(whole: &crate::bignum::Int, decimal: &crate::bignum::Int, dec_len: usize) -> (r: crate::bignum::Frac)
    ensures
        r@.0 * vstd::arithmetic::power::pow(10, dec_len as nat) == (whole@ * vstd::arithmetic::power::pow(
            10,
            dec_len as nat,
        ) + decimal@) * r@.1,
        r@.1 > 0,
        crate::bignum::coprime(r@.0, r@.1),
{
    // whole + decimal/denom == (whole * denom + decimal) / denom, with a single reduction.
    let denom = crate::bignum::Int::pow10(dec_len);
    proof {
        vstd::arithmetic::power::lemma_pow_positive(10, dec_len as nat);
    }
    let numer = whole.mul(&denom).add(decimal);
    crate::bignum::Frac::new(&numer, &denom)
}

} // verus!
