//! Module containing parsing functions.

use crate::obj::Obj;
use crate::parse::char_stream::{
    skip_ws_end, digits_end, field_chars_end, is_ascii_digit, is_field_run_char, is_str_span_char, line_col, str_span_end, CharStream,
};
use crate::parse::error::{ParseError, ParseErrorKind};
use crate::parse::util::{
    spec_is_op,
    spec_is_numeric_char,
    frac_from_whole_and_dec, is_numeric_char, get_escape_char, is_end_delimiter, is_reserved, is_value_end_char, spec_escape_char, spec_is_end_delimiter,
    spec_is_reserved, spec_is_value_end_char, str_equals,
};
use crate::bignum::{all_digits, coprime, decimal_value, trunc_rem, Frac, Int};
use crate::text::{chars_of, string_push};
use vstd::arithmetic::power::pow;
use crate::value::{model_type_of, spec_is_valid_field_char, Arr, ObjModel, Pair, Tup, Value, ValueModel};
use crate::parse::includes::{entry_matches, IncludeFile, lemma_fresh_decreases, lemma_target_canons, string_views, target_canons, IncludeTarget, Included};
use crate::parse::MAX_DEPTH;
use crate::types::{
    model_type_eq,
    lemma_eq_generalizes_specific, lemma_generalizes_reflexive, lemma_generalizes_transitive, lemma_most_specific_flag,
    lemma_most_specific_generalized, model_generalizes, model_has_any, model_most_specific, Type, TypeModel,
};
use crate::valid::{lemma_wf_elems, lemma_wf_pairs, lemma_wf_values, regular_field_name, wf_obj, wf_value};
use crate::parse::{BinaryOp, UnaryOp};
use vstd::prelude::*;

verus! {

/// The kind of a field: a global variable (`@name`), the parent (`^`), or a regular field.
#[derive(Debug, Clone, Copy, PartialEq, Eq, Structural)]
pub enum FieldType {
    Global,
    Parent,
    Regular,
}

/// What reading a field name at some index finds: the name and the index after it (after
/// the ':' if there is one), or an invalid character and its index.
pub ghost enum FieldScan {
    Name(Seq<char>, int),
    BadChar(char, int),
}

/// Reads a field name at `p`: an optional '@', a first character valid for a field, a run of
/// further field characters, and a ':' (or the end of the input).
pub open spec fn scan_field(s: Seq<char>, p: int) -> FieldScan {
    let g = 0 <= p < s.len() && s[p] == '@';
    let q = if g { p + 1 } else { p };
    let pre = if g { seq!['@'] } else { Seq::<char>::empty() };
    if q >= s.len() {
        FieldScan::Name(pre, q)
    } else if !spec_is_valid_field_char(s[q], true) {
        FieldScan::BadChar(s[q], q)
    } else {
        let e = field_chars_end(s, q + 1);
        let name = pre + s.subrange(q, e);
        if e >= s.len() {
            FieldScan::Name(name, e)
        } else if s[e] == ':' {
            FieldScan::Name(name, e + 1)
        } else {
            FieldScan::BadChar(s[e], e)
        }
    }
}

/// The line of the character at index `k`, and its column: the position reached after
/// reading it, one column back.
pub open spec fn char_pos(s: Seq<char>, k: int) -> (int, int) {
    (line_col(s, (k + 1) as nat).0 as int, line_col(s, (k + 1) as nat).1 - 1)
}

/// The result of `parse_field` at index `p`, with `line` and `col` the position of the field.
pub open spec fn field_result_ok(s: Seq<char>, p: int, name: Seq<char>, ft: FieldType) -> bool {
    &&& scan_field(s, p) matches FieldScan::Name(n, _) && n == name
    &&& !spec_is_reserved(name)
    &&& (name == seq!['^'] ==> ft == FieldType::Parent)
    &&& (name != seq!['^'] ==> !(name.len() > 0 && name[0] == '^') && ft == (if 0 <= p < s.len()
        && s[p] == '@' {
        FieldType::Global
    } else {
        FieldType::Regular
    }))
}

/// A valid character after the first one of a field name is exactly a character of a run.
pub proof fn lemma_field_char_not_first(c: char)
    ensures
        spec_is_valid_field_char(c, false) == is_field_run_char(c),
{
}

/// An error of `kind` in the file of `stream`.
fn error<T>(stream: &CharStream, kind: ParseErrorKind) -> (r: Result<T, ParseError>)
    ensures
        r matches Err(e) && e.file == stream.file && e.kind == kind,
{
    Err(ParseError { file: stream.file(), kind })
}

/// Gets the next field in the char stream, with its kind.
pub fn parse_field(stream: &mut CharStream, line: usize, col: usize) -> (r: Result<(String, FieldType), ParseError>)
    requires
        old(stream).wf(),
        old(stream).pos < old(stream).contents@.len(),
    ensures
        final(stream).wf(),
        final(stream).contents@ == old(stream).contents@,
        final(stream).file == old(stream).file,
        final(stream).pos >= old(stream).pos,
        match r {
            Ok((name, ft)) => {
                &&& field_result_ok(old(stream).contents@, old(stream).pos as int, name@, ft)
                &&& scan_field(old(stream).contents@, old(stream).pos as int) matches FieldScan::Name(_, end)
                    && final(stream).pos == end
            },
            Err(e) => {
                &&& e.file == old(stream).file
                &&& match scan_field(old(stream).contents@, old(stream).pos as int) {
                    FieldScan::BadChar(c, k) => e.kind == ParseErrorKind::InvalidFieldChar(
                        c,
                        char_pos(old(stream).contents@, k).0 as usize,
                        char_pos(old(stream).contents@, k).1 as usize,
                    ),
                    FieldScan::Name(n, _) => e.kind matches ParseErrorKind::InvalidFieldName(f, l, c)
                        && f@ == n && l == line && c == col && (spec_is_reserved(n) || (n != seq!['^']
                        && n.len() > 0 && n[0] == '^')),
                }
            },
        },
{
    let ghost s = stream.contents@;
    let ghost p = stream.pos as int;
    let mut field = String::new();
    let mut is_global = false;

    if stream.peek() == Some('@') {
        let ch = stream.next().unwrap();
        is_global = true;
        string_push(&mut field, ch);
    }
    let ghost pre = field@;
    let ghost q = stream.pos as int;
    match stream.next() {
        Some(ch) => {
            if Obj::is_valid_field_char(ch, true) {
                string_push(&mut field, ch);
                stream.take_field_chars(&mut field);
                proof {
                    assert(field@ =~= pre + s.subrange(q, stream.pos as int));
                }
                match stream.next() {
                    Some(ch) => {
                        if ch != ':' {
                            proof {
                                lemma_line_col_bounds_of(stream);
                            }
                            return error(stream, ParseErrorKind::InvalidFieldChar(ch, stream.line(), stream.col() - 1));
                        }
                    },
                    None => {},
                }
            } else {
                proof {
                    lemma_line_col_bounds_of(stream);
                }
                return error(stream, ParseErrorKind::InvalidFieldChar(ch, stream.line(), stream.col() - 1));
            }
        },
        None => {},
    }

    // Check for invalid field names.
    if is_reserved(field.as_str()) {
        return error(stream, ParseErrorKind::InvalidFieldName(field, line, col));
    }
    if str_equals(field.as_str(), "^") {
        proof {
            reveal_strlit("^");
            assert(field@ =~= seq!['^']);
        }
        return Ok((field, FieldType::Parent));
    }
    proof {
        reveal_strlit("^");
        if field@ =~= seq!['^'] {
            assert(field@ == "^"@);
        }
    }
    if field.as_str().unicode_len() > 0 && field.as_str().get_char(0) == '^' {
        return error(stream, ParseErrorKind::InvalidFieldName(field, line, col));
    }
    Ok((field, if is_global { FieldType::Global } else { FieldType::Regular }))
}

/// The column of a stream is at least one.
proof fn lemma_line_col_bounds_of(stream: &CharStream)
    requires
        stream.wf(),
    ensures
        stream.line >= 1,
        stream.col >= 1,
{
    crate::parse::char_stream::lemma_line_col_bound(stream.contents@, stream.pos as nat);
}


/// What `check_value_end` answers for the next character `next`, at line `l` and column `c`:
/// nothing or a character that may end a value is fine, unless it is a closing bracket other
/// than `cur_brace`.
pub open spec fn value_end_ok(next: Option<char>, cur_brace: Option<char>) -> bool {
    match next {
        None => true,
        Some(ch) => spec_is_value_end_char(ch) && !(spec_is_end_delimiter(ch) && Some(ch) != cur_brace),
    }
}

// Helper function to make sure values are followed by a correct end delimiter.
pub fn check_value_end(stream: &CharStream, cur_brace: Option<char>) -> (r: Result<(), ParseError>)
    requires
        stream.wf(),
    ensures
        r is Ok <==> value_end_ok(stream.peek_spec(), cur_brace),
        r matches Err(e) ==> e.file == stream.file && match stream.peek_spec() {
            Some(ch) => if spec_is_value_end_char(ch) {
                e.kind == ParseErrorKind::InvalidClosingBracket(cur_brace, ch, stream.line, stream.col)
            } else {
                e.kind == ParseErrorKind::InvalidValueChar(ch, stream.line, stream.col)
            },
            None => false,
        },
{
    match stream.peek() {
        Some(ch) => {
            if is_value_end_char(ch) {
                if is_end_delimiter(ch) && Some(ch) != cur_brace {
                    error(stream, ParseErrorKind::InvalidClosingBracket(cur_brace, ch, stream.line(), stream.col()))
                } else {
                    Ok(())
                }
            } else {
                error(stream, ParseErrorKind::InvalidValueChar(ch, stream.line(), stream.col()))
            }
        },
        None => Ok(()),
    }
}

/// What reading a string body at some index finds: the decoded string and the index after
/// the closing quote, a bad escape and the index of the character after the backslash, or
/// the end of the input.
pub ghost enum StrScan {
    Done(Seq<char>, int),
    BadEscape(char, int),
    End,
}

/// Reads a string body at `i`: characters up to a quote, with backslash escapes.
pub open spec fn scan_str(s: Seq<char>, i: int) -> StrScan
    decreases s.len() - i,
{
    if i < 0 || i > s.len() {
        StrScan::End
    } else {
        let j = str_span_end(s, i);
        let body = s.subrange(i, j);
        if j >= s.len() || j < i {
            StrScan::End
        } else if s[j] == '"' {
            StrScan::Done(body, j + 1)
        } else if j + 1 >= s.len() {
            StrScan::End
        } else {
            match spec_escape_char(s[j + 1]) {
                Some(e) => match scan_str(s, j + 2) {
                    StrScan::Done(rest, end) => StrScan::Done(body.push(e) + rest, end),
                    other => other,
                },
                None => StrScan::BadEscape(s[j + 1], j + 1),
            }
        }
    }
}


/// The characters of a string body from `i` on that are neither a quote nor a backslash end at
/// `j`, the first one that is.
proof fn lemma_str_span_end(s: Seq<char>, i: int, j: int)
    requires
        0 <= i <= j < s.len(),
        forall|k: int| i <= k < j ==> s[k] != '"' && s[k] != '\\',
        s[j] == '"' || s[j] == '\\',
    ensures
        str_span_end(s, i) == j,
    decreases j - i,
{
    if i < j {
        lemma_str_span_end(s, i + 1, j);
    }
}

/// A string body of characters that are neither a quote nor a backslash, closed by a quote,
/// reads as exactly those characters, and the string ends after the quote.
pub proof fn lemma_plain_string(s: Seq<char>, i: int, j: int)
    requires
        0 <= i <= j < s.len(),
        forall|k: int| i <= k < j ==> s[k] != '"' && s[k] != '\\',
        s[j] == '"',
    ensures
        scan_str(s, i) == StrScan::Done(s.subrange(i, j), j + 1),
{
    lemma_str_span_end(s, i, j);
}

/// In a string, a backslash and the character `c` after it stand for one character: a line feed
/// for `n`, a carriage return for `r`, a tab for `t`, and `c` itself for a backslash, a quote, an
/// apostrophe or a dollar sign; the rest of the string is read after the pair. Any other `c` is
/// an invalid escape at its place.
pub proof fn lemma_escape_in_string(s: Seq<char>, i: int)
    requires
        0 <= i,
        i + 1 < s.len(),
        s[i] == '\\',
    ensures
        ({
            let c = s[i + 1];
            let d: Option<char> = if c == 'n' {
                Some('\n')
            } else if c == 'r' {
                Some('\r')
            } else if c == 't' {
                Some('\t')
            } else if c == '\\' || c == '"' || c == '\'' || c == '$' {
                Some(c)
            } else {
                None
            };
            match d {
                Some(ch) => scan_str(s, i) == match scan_str(s, i + 2) {
                    StrScan::Done(rest, end) => StrScan::Done(seq![ch] + rest, end),
                    other => other,
                },
                None => scan_str(s, i) == StrScan::BadEscape(c, i + 1),
            }
        }),
{
    lemma_str_span_end(s, i, i);
    assert(s.subrange(i, i) =~= Seq::<char>::empty());
    if let StrScan::Done(rest, end) = scan_str(s, i + 2) {
        let e = spec_escape_char(s[i + 1])->0;
        assert(Seq::<char>::empty().push(e) + rest =~= seq![e] + rest);
    }
}

/// What a string that starts at the index after the opening quote gives: the string, the
/// position after it, or the error with its place.
pub open spec fn str_result_ok(s: Seq<char>, i: int, r: Result<Value, ParseError>, end: int) -> bool {
    match scan_str(s, i) {
        StrScan::Done(text, e) => r matches Ok(v) && v@ == ValueModel::Str(text) && end == e,
        StrScan::BadEscape(c, k) => r matches Err(err) && err.kind == ParseErrorKind::InvalidEscapeChar(
            c,
            char_pos(s, k).0 as usize,
            char_pos(s, k).1 as usize,
        ),
        StrScan::End => r matches Err(err) && err.kind == ParseErrorKind::UnexpectedEnd(
            line_col(s, s.len()).0 as usize,
        ),
    }
}

/// Reading a string body after an escape or a run continues where they end.
proof fn lemma_scan_str_step(s: Seq<char>, i: int)
    requires
        0 <= i <= s.len(),
    ensures
        str_span_end(s, i) >= i,
        str_span_end(s, i) <= s.len(),
        str_span_end(s, i) < s.len() ==> !is_str_span_char(s[str_span_end(s, i)]),
        forall|k: int| i <= k < str_span_end(s, i) ==> is_str_span_char(#[trigger] s[k]),
    decreases s.len() - i,
{
    if i < s.len() && is_str_span_char(s[i]) {
        lemma_scan_str_step(s, i + 1);
    }
}

// Gets the next Str in the character stream.
// Assumes the Str starts and ends with quotation marks and does not include them in the Str.
// '"', '\' and '$' must be escaped with '\'.
// Newlines can either be the string "\n" ('\' followed by 'n') or the newline character '\n'.
pub fn parse_str(stream: &mut CharStream) -> (r: Result<Value, ParseError>)
    requires
        old(stream).wf(),
        old(stream).peek_spec() == Some('"'),
    ensures
        final(stream).wf(),
        final(stream).contents@ == old(stream).contents@,
        final(stream).file == old(stream).file,
        final(stream).pos > old(stream).pos,
        str_result_ok(old(stream).contents@, old(stream).pos + 1, r, final(stream).pos as int),
        r matches Err(e) ==> e.file == old(stream).file,
{
    let ghost s0 = stream.contents@;
    let ghost start = stream.pos + 1;
    let _ = stream.next();
    let mut text = String::new();
    let n = stream.contents.len();
    loop
        invariant
            stream.wf(),
            stream.contents@ == s0,
            s0 == old(stream).contents@,
            stream.file == old(stream).file,
            n == s0.len(),
            start <= stream.pos <= n,
            start == old(stream).pos + 1,
            match scan_str(s0, stream.pos as int) {
                StrScan::Done(rest, e) => scan_str(s0, start) == StrScan::Done(text@ + rest, e),
                other => scan_str(s0, start) == other,
            },
        decreases n - stream.pos,
    {
        let ghost i = stream.pos as int;
        let ghost ti = text@;
        proof {
            lemma_scan_str_step(s0, i);
        }
        stream.take_str_span(&mut text);
        let ghost j = stream.pos as int;
        let ghost body = s0.subrange(i, j);
        match stream.next() {
            Some(c) => {
                if c == '"' {
                    proof {
                        assert(text@ + Seq::<char>::empty() =~= text@);
                        assert(scan_str(s0, i) == StrScan::Done(body, j + 1));
                        assert(scan_str(s0, start) == StrScan::Done(ti + body, j + 1));
                        assert(text@ == ti + body);
                    }
                    let r = Ok(Value::Str(text));
                    proof {
                        assert(str_result_ok(s0, start, r, stream.pos as int));
                    }
                    return r;
                }
                // `take_str_span` only stops at '"', '\\', or the end of the stream.
                match stream.next() {
                    Some(ch) => match get_escape_char(ch) {
                        Some(e) => {
                            string_push(&mut text, e);
                            proof {
                                assert forall|rest: Seq<char>|
                                    #![auto]
                                    ti + (body.push(e) + rest) =~= text@ + rest by {}
                            }
                        },
                        None => {
                            proof {
                                lemma_line_col_bounds_of(stream);
                            }
                            return error(stream, ParseErrorKind::InvalidEscapeChar(ch, stream.line(), stream.col() - 1));
                        },
                    },
                    None => return error(stream, ParseErrorKind::UnexpectedEnd(stream.line())),
                }
            },
            None => return error(stream, ParseErrorKind::UnexpectedEnd(stream.line())),
        }
    }
}


/// What reading a number at some index finds: whether it had a decimal point, the digits
/// before and after it, and the index where it ends; or an invalid character and its index.
pub ghost enum NumScan {
    Done(bool, Seq<char>, Seq<char>, int),
    Bad(char, int),
}

/// Reads a number at `i`: digits, at most one '.' or ',', and single '_' separators, up to
/// a character that may end a value. `dec` says whether the decimal point was seen, `under`
/// whether the last character was '_', `s1` and `s2` hold the digits read so far.
pub open spec fn num_scan(s: Seq<char>, i: int, dec: bool, under: bool, s1: Seq<char>, s2: Seq<char>) -> NumScan
    decreases s.len() - i,
{
    if i < 0 || i >= s.len() {
        NumScan::Done(dec, s1, s2, i)
    } else {
        let c = s[i];
        if is_ascii_digit(c) {
            if dec {
                num_scan(s, i + 1, dec, false, s1, s2.push(c))
            } else {
                num_scan(s, i + 1, dec, false, s1.push(c), s2)
            }
        } else if spec_is_value_end_char(c) {
            NumScan::Done(dec, s1, s2, i)
        } else if c == '.' || c == ',' {
            if dec {
                NumScan::Bad(c, i)
            } else {
                num_scan(s, i + 1, true, false, s1, s2)
            }
        } else if c == '_' {
            if under {
                NumScan::Bad(c, i)
            } else {
                num_scan(s, i + 1, dec, true, s1, s2)
            }
        } else {
            NumScan::Bad(c, i)
        }
    }
}

/// The digits without their trailing zeros.
pub open spec fn trim_zeros(s: Seq<char>) -> Seq<char>
    decreases s.len(),
{
    if s.len() > 0 && s.last() == '0' {
        trim_zeros(s.drop_last())
    } else {
        s
    }
}

/// The value that `parse_numeric` gives for the number at `p` (at line `line`, column `col`),
/// with the index where it ends.
pub open spec fn numeric_result_ok(s: Seq<char>, p: int, line: usize, col: usize, r: Result<Value, ParseError>, end: int) -> bool {
    match num_scan(s, p, false, false, Seq::empty(), Seq::empty()) {
        NumScan::Bad(c, k) => r matches Err(e) && e.kind == ParseErrorKind::InvalidValueChar(
            c,
            line_col(s, k as nat).0 as usize,
            line_col(s, k as nat).1 as usize,
        ),
        NumScan::Done(dec, s1, s2, e) => if dec {
            if s1.len() == 0 && s2.len() == 0 {
                r matches Err(err) && err.kind == ParseErrorKind::InvalidNumeric(line, col)
            } else {
                let whole = decimal_value(s1) as int;
                let t = trim_zeros(s2);
                let k: nat = if t.len() == 0 { 1 } else { t.len() };
                let d = decimal_value(t) as int;
                &&& r matches Ok(v) && v@ matches ValueModel::Frac(n, m) && m > 0 && coprime(n, m) && n * pow(10, k) == (whole
                    * pow(10, k) + d) * m
                &&& end == e
            }
        } else {
            if s1.len() == 0 {
                r matches Err(err) && err.kind == ParseErrorKind::InvalidNumeric(line, col)
            } else {
                &&& r matches Ok(v) && v@ == ValueModel::Int(decimal_value(s1) as int)
                &&& end == e
            }
        },
    }
}

/// A run of digits read at once reads as the digits one by one.
proof fn lemma_num_scan_digits(s: Seq<char>, i: int, dec: bool, under: bool, s1: Seq<char>, s2: Seq<char>)
    requires
        0 <= i <= s.len(),
    ensures
        ({
            let e = digits_end(s, i);
            let run = s.subrange(i, e);
            &&& i <= e <= s.len()
            &&& all_digits(run)
            &&& e < s.len() ==> !is_ascii_digit(s[e])
            &&& num_scan(s, i, dec, under, s1, s2) == num_scan(
                s,
                e,
                dec,
                under && e == i,
                if dec { s1 } else { s1 + run },
                if dec { s2 + run } else { s2 },
            )
        }),
    decreases s.len() - i,
{
    if i < s.len() && is_ascii_digit(s[i]) {
        let c = s[i];
        lemma_num_scan_digits(
            s,
            i + 1,
            dec,
            false,
            if dec { s1 } else { s1.push(c) },
            if dec { s2.push(c) } else { s2 },
        );
        let e = digits_end(s, i);
        assert(s.subrange(i, e) =~= seq![c] + s.subrange(i + 1, e));
        assert(s1.push(c) + s.subrange(i + 1, e) =~= s1 + s.subrange(i, e));
        assert(s2.push(c) + s.subrange(i + 1, e) =~= s2 + s.subrange(i, e));
    } else {
        assert(s.subrange(i, i) =~= Seq::<char>::empty());
        assert(s1 + Seq::<char>::empty() =~= s1);
        assert(s2 + Seq::<char>::empty() =~= s2);
    }
}

/// Trimming zeros leaves a prefix of digits.
proof fn lemma_trim_zeros(s: Seq<char>)
    requires
        all_digits(s),
    ensures
        all_digits(trim_zeros(s)),
        trim_zeros(s).len() <= s.len(),
        trim_zeros(s) == s.subrange(0, trim_zeros(s).len() as int),
    decreases s.len(),
{
    if s.len() > 0 && s.last() == '0' {
        lemma_trim_zeros(s.drop_last());
    } else {
        assert(s.subrange(0, s.len() as int) =~= s);
    }
}

// Parses a string of ASCII digits into an integer.
fn digits_to_bigint(s: &str) -> (r: Int)
    requires
        s@.len() > 0,
        all_digits(s@),
    ensures
        r@ == decimal_value(s@) as int,
{
    Int::from_decimal(s)
}

/// The digits of `s` without their trailing zeros.
fn trim_end_zeros(s: &String) -> (r: String)
    requires
        all_digits(s@),
    ensures
        r@ == trim_zeros(s@),
{
    let cs = chars_of(s.as_str());
    let mut k = cs.len();
    proof {
        assert(cs@.subrange(0, k as int) =~= s@);
    }
    while k > 0 && cs[k - 1] == '0'
        invariant
            cs@ == s@,
            k <= cs@.len(),
            trim_zeros(s@) == trim_zeros(cs@.subrange(0, k as int)),
        decreases k,
    {
        proof {
            assert(cs@.subrange(0, k as int).drop_last() =~= cs@.subrange(0, k - 1));
        }
        k = k - 1;
    }
    let mut out = String::new();
    let mut j: usize = 0;
    while j < k
        invariant
            cs@ == s@,
            j <= k <= cs@.len(),
            out@ == cs@.subrange(0, j as int),
        decreases k - j,
    {
        string_push(&mut out, cs[j]);
        proof {
            assert(cs@.subrange(0, j + 1) =~= cs@.subrange(0, j as int).push(cs@[j as int]));
        }
        j = j + 1;
    }
    out
}

// Gets the next numeric (either Int or Frac) in the character stream.
pub fn parse_numeric(stream: &mut CharStream, line: usize, col: usize) -> (r: Result<Value, ParseError>)
    requires
        old(stream).wf(),
    ensures
        final(stream).wf(),
        final(stream).contents@ == old(stream).contents@,
        final(stream).file == old(stream).file,
        final(stream).pos >= old(stream).pos,
        numeric_result_ok(old(stream).contents@, old(stream).pos as int, line, col, r, final(stream).pos as int),
        r matches Err(e) ==> e.file == old(stream).file,
{
    let ghost s0 = stream.contents@;
    let ghost p = stream.pos as int;
    let mut s1 = String::new();
    let mut s2 = String::new();
    let mut dec = false;
    let mut under = false;
    let n = stream.contents.len();

    loop
        invariant
            stream.wf(),
            stream.contents@ == s0,
            s0 == old(stream).contents@,
            stream.file == old(stream).file,
            p == old(stream).pos,
            n == s0.len(),
            p <= stream.pos <= n,
            all_digits(s1@),
            all_digits(s2@),
            num_scan(s0, p, false, false, Seq::empty(), Seq::empty()) == num_scan(
                s0,
                stream.pos as int,
                dec,
                under,
                s1@,
                s2@,
            ),
        ensures
            num_scan(s0, stream.pos as int, dec, under, s1@, s2@) == NumScan::Done(
                dec,
                s1@,
                s2@,
                stream.pos as int,
            ),
        decreases n - stream.pos,
    {
        // Bulk-consume a run of digits into the current number part.
        let ghost i = stream.pos as int;
        proof {
            lemma_num_scan_digits(s0, i, dec, under, s1@, s2@);
        }
        let count = if !dec {
            stream.take_digits(&mut s1)
        } else {
            stream.take_digits(&mut s2)
        };
        if count > 0 {
            under = false;
        }

        let ch = match stream.peek() {
            Some(ch) => ch,
            None => break,
        };

        if is_value_end_char(ch) {
            break;
        } else if ch == '.' || ch == ',' {
            if !dec {
                dec = true;
            } else {
                return error(stream, ParseErrorKind::InvalidValueChar(ch, stream.line(), stream.col()));
            }
            under = false;
        } else if ch == '_' {
            if !under {
                under = true;
            } else {
                return error(stream, ParseErrorKind::InvalidValueChar(ch, stream.line(), stream.col()));
            }
        } else {
            return error(stream, ParseErrorKind::InvalidValueChar(ch, stream.line(), stream.col()));
        }

        let _ = stream.next();
    }

    let ghost e = stream.pos as int;
    if dec {
        // Parse a Frac from a number with a decimal.
        if s1.as_str().unicode_len() == 0 && s2.as_str().unicode_len() == 0 {
            return error(stream, ParseErrorKind::InvalidNumeric(line, col));
        }

        let whole: Int = if s1.as_str().unicode_len() == 0 {
            Int::zero()
        } else {
            digits_to_bigint(s1.as_str())
        };

        // Remove trailing zeros.
        proof {
            lemma_trim_zeros(s2@);
        }
        let s2 = trim_end_zeros(&s2);

        let len2 = s2.as_str().unicode_len();
        let (decimal, dec_len): (Int, usize) = if len2 == 0 {
            (Int::zero(), 1)
        } else {
            (digits_to_bigint(s2.as_str()), len2)
        };

        let f = frac_from_whole_and_dec(&whole, &decimal, dec_len);
        Ok(Value::Frac(f))
    } else {
        // Parse an Int.
        if s1.as_str().unicode_len() == 0 {
            return error(stream, ParseErrorKind::InvalidNumeric(line, col));
        }

        let i: Int = digits_to_bigint(s1.as_str());
        Ok(Value::Int(i))
    }
}


/// The error `UnaryOperatorError` for a value of type `t`.
pub open spec fn is_unary_error(e: ParseError, t: TypeModel, op: UnaryOp, line: usize, col: usize) -> bool {
    e.kind matches ParseErrorKind::UnaryOperatorError(et, eop, l, c) && et@ == t && eop == op && l
        == line && c == col
}

/// What applying `op` to a value gives.
pub open spec fn unary_result_ok(v: ValueModel, op: UnaryOp, line: usize, col: usize, r: Result<Value, ParseError>) -> bool {
    match (op, v) {
        (UnaryOp::Plus, ValueModel::Int(_)) => r matches Ok(x) && x@ == v,
        (UnaryOp::Plus, ValueModel::Frac(_, _)) => r matches Ok(x) && x@ == v,
        (UnaryOp::Minus, ValueModel::Int(i)) => r matches Ok(x) && x@ == ValueModel::Int(-i),
        (UnaryOp::Minus, ValueModel::Frac(n, d)) => r matches Ok(x) && x@ == ValueModel::Frac(-n, d),
        _ => r matches Err(e) && is_unary_error(e, model_type_of(v), op, line, col),
    }
}

// Tries to perform a unary operation on a single value.
pub fn unary_op_on_value(stream: &CharStream, val: Value, op: UnaryOp, line: usize, col: usize) -> (r: Result<Value, ParseError>)
    ensures
        unary_result_ok(val@, op, line, col, r),
        r matches Err(e) ==> e.file == stream.file,
{
    match op {
        UnaryOp::Plus => match val {
            Value::Int(_) | Value::Frac(_) => Ok(val),
            _ => error(stream, ParseErrorKind::UnaryOperatorError(val.get_type(), op, line, col)),
        },
        UnaryOp::Minus => match val {
            Value::Int(i) => Ok(Value::Int(i.neg())),
            Value::Frac(f) => Ok(Value::Frac(f.neg())),
            _ => error(stream, ParseErrorKind::UnaryOperatorError(val.get_type(), op, line, col)),
        },
    }
}

/// The values an operation works on: an `Int` beside a `Frac` becomes a fraction over one.
pub open spec fn promote(v1: ValueModel, v2: ValueModel) -> (ValueModel, ValueModel) {
    match (v1, v2) {
        (ValueModel::Int(i), ValueModel::Frac(_, _)) => (ValueModel::Frac(i, 1), v2),
        (ValueModel::Frac(_, _), ValueModel::Int(i)) => (v1, ValueModel::Frac(i, 1)),
        _ => (v1, v2),
    }
}

/// The error `BinaryOperatorError` for values of types `t1` and `t2`.
pub open spec fn is_binary_error(e: ParseError, t1: TypeModel, t2: TypeModel, op: BinaryOp, line: usize, col: usize) -> bool {
    e.kind matches ParseErrorKind::BinaryOperatorError(et1, et2, eop, l, c) && et1@ == t1 && et2@ == t2
        && eop == op && l == line && c == col
}

/// What applying `op` to two values gives.
pub open spec fn binary_result_ok(v1: ValueModel, v2: ValueModel, op: BinaryOp, line: usize, col: usize, r: Result<Value, ParseError>) -> bool {
    let (p1, p2) = promote(v1, v2);
    let bad = r matches Err(e) && is_binary_error(e, model_type_of(p1), model_type_of(p2), op, line, col);
    let div_zero = r matches Err(e) && e.kind == ParseErrorKind::InvalidNumeric(line, col);
    match (op, p1, p2) {
        (BinaryOp::Plus, ValueModel::Int(a), ValueModel::Int(b)) => r matches Ok(x) && x@ == ValueModel::Int(a + b),
        (BinaryOp::Plus, ValueModel::Frac(a, b), ValueModel::Frac(c, d)) => r matches Ok(x) && x@ matches ValueModel::Frac(n, m)
            && m > 0 && coprime(n, m) && n * (b * d) == (a * d + c * b) * m,
        (BinaryOp::Plus, ValueModel::Str(a), ValueModel::Str(b)) => r matches Ok(x) && x@ == ValueModel::Str(a + b),
        (BinaryOp::Plus, ValueModel::Arr(xs, _), _) => match model_most_specific(model_type_of(p1), model_type_of(p2)) {
            Some((TypeModel::Arr(t), _)) => p2 matches ValueModel::Arr(ys, _) && r matches Ok(x) && x@ == ValueModel::Arr(xs + ys, *t),
            _ => bad,
        },
        (BinaryOp::Minus, ValueModel::Int(a), ValueModel::Int(b)) => r matches Ok(x) && x@ == ValueModel::Int(a - b),
        (BinaryOp::Minus, ValueModel::Frac(a, b), ValueModel::Frac(c, d)) => r matches Ok(x) && x@ matches ValueModel::Frac(n, m)
            && m > 0 && coprime(n, m) && n * (b * d) == (a * d - c * b) * m,
        (BinaryOp::Mult, ValueModel::Int(a), ValueModel::Int(b)) => r matches Ok(x) && x@ == ValueModel::Int(a * b),
        (BinaryOp::Mult, ValueModel::Frac(a, b), ValueModel::Frac(c, d)) => r matches Ok(x) && x@ matches ValueModel::Frac(n, m)
            && m > 0 && coprime(n, m) && n * (b * d) == (a * c) * m,
        (BinaryOp::Div, ValueModel::Int(a), ValueModel::Int(b)) => if b == 0 {
            div_zero
        } else {
            r matches Ok(x) && x@ matches ValueModel::Frac(n, m) && m > 0 && coprime(n, m) && n * b == a * m
        },
        (BinaryOp::Div, ValueModel::Frac(a, b), ValueModel::Frac(c, d)) => if c == 0 {
            div_zero
        } else {
            r matches Ok(x) && x@ matches ValueModel::Frac(n, m) && m > 0 && coprime(n, m) && n * (b * c) == (a * d) * m
        },
        (BinaryOp::Mod, ValueModel::Int(a), ValueModel::Int(b)) => if b == 0 {
            div_zero
        } else {
            r matches Ok(x) && x@ == ValueModel::Int(trunc_rem(a, b))
        },
        _ => bad,
    }
}

/// Applies `op` to two values already promoted.
fn binary_op_promoted(stream: &CharStream, v1: Value, v2: Value, op: BinaryOp, line: usize, col: usize) -> (r: Result<Value, ParseError>)
    requires
        promote(v1@, v2@) == (v1@, v2@),
    ensures
        binary_result_ok(v1@, v2@, op, line, col, r),
        r matches Err(e) ==> e.file == stream.file,
{
    let ghost (m1, m2) = (v1@, v2@);
    match op {
        BinaryOp::Plus => match (v1, v2) {
            (Value::Int(a), Value::Int(b)) => Ok(Value::Int(a.add(&b))),
            (Value::Frac(a), Value::Frac(b)) => Ok(Value::Frac(a.add(&b))),
            (Value::Str(a), Value::Str(b)) => {
                let mut s = a;
                s.append(b.as_str());
                Ok(Value::Str(s))
            },
            (Value::Arr(a), v2) => {
                let type1 = Type::Arr(Box::new(a.inner_type()));
                let type2 = v2.get_type();
                match Type::most_specific(&type1, &type2) {
                    Some((Type::Arr(t), _)) => {
                        proof {
                            lemma_type_of_not_any(m2);
                        }
                        match v2 {
                            Value::Arr(b) => {
                                let mut vec1 = a.into_values();
                                let mut vec2 = b.into_values();
                                let ghost (w1, w2) = (vec1@, vec2@);
                                vec1.append(&mut vec2);
                                proof {
                                    assert(Value::models(vec1@) =~= Value::models(w1) + Value::models(w2));
                                }
                                Ok(Value::Arr(Arr::from_values_unchecked(vec1, *t)))
                            },
                            _ => error(stream, ParseErrorKind::BinaryOperatorError(type1, type2, op, line, col)),
                        }
                    },
                    _ => error(stream, ParseErrorKind::BinaryOperatorError(type1, type2, op, line, col)),
                }
            },
            (v1, v2) => error(stream, ParseErrorKind::BinaryOperatorError(v1.get_type(), v2.get_type(), op, line, col)),
        },
        BinaryOp::Minus => match (v1, v2) {
            (Value::Int(a), Value::Int(b)) => Ok(Value::Int(a.sub(&b))),
            (Value::Frac(a), Value::Frac(b)) => Ok(Value::Frac(a.sub(&b))),
            (v1, v2) => error(stream, ParseErrorKind::BinaryOperatorError(v1.get_type(), v2.get_type(), op, line, col)),
        },
        BinaryOp::Mult => match (v1, v2) {
            (Value::Int(a), Value::Int(b)) => Ok(Value::Int(a.mul(&b))),
            (Value::Frac(a), Value::Frac(b)) => Ok(Value::Frac(a.mul(&b))),
            (v1, v2) => error(stream, ParseErrorKind::BinaryOperatorError(v1.get_type(), v2.get_type(), op, line, col)),
        },
        BinaryOp::Div => match (v1, v2) {
            (Value::Int(a), Value::Int(b)) => {
                if b.is_zero() {
                    return error(stream, ParseErrorKind::InvalidNumeric(line, col));
                }
                Ok(Value::Frac(Frac::new(&a, &b)))
            },
            (Value::Frac(a), Value::Frac(b)) => {
                if b.is_zero() {
                    return error(stream, ParseErrorKind::InvalidNumeric(line, col));
                }
                Ok(Value::Frac(a.div(&b)))
            },
            (v1, v2) => error(stream, ParseErrorKind::BinaryOperatorError(v1.get_type(), v2.get_type(), op, line, col)),
        },
        BinaryOp::Mod => match (v1, v2) {
            (Value::Int(a), Value::Int(b)) => {
                if b.is_zero() {
                    return error(stream, ParseErrorKind::InvalidNumeric(line, col));
                }
                Ok(Value::Int(a.rem(&b)))
            },
            (v1, v2) => error(stream, ParseErrorKind::BinaryOperatorError(v1.get_type(), v2.get_type(), op, line, col)),
        },
    }
}

// Tries to perform an operation on two values.
pub fn binary_op_on_values(stream: &CharStream, val1: Value, val2: Value, op: BinaryOp, line: usize, col: usize) -> (r: Result<Value, ParseError>)
    ensures
        binary_result_ok(val1@, val2@, op, line, col, r),
        r matches Err(e) ==> e.file == stream.file,
{
    // If one value is an Int and the other is a Frac, promote the Int.
    let (v1, v2) = match (val1, val2) {
        (Value::Int(i), Value::Frac(f)) => (Value::Frac(Frac::from_int(&i)), Value::Frac(f)),
        (Value::Frac(f), Value::Int(i)) => (Value::Frac(f), Value::Frac(Frac::from_int(&i))),
        (a, b) => (a, b),
    };
    binary_op_promoted(stream, v1, v2, op, line, col)
}

/// An operation on two well-formed values gives a well-formed value: in particular two arrays
/// are joined under a type that both their element types refine.
pub proof fn lemma_binary_wf(v1: ValueModel, v2: ValueModel, op: BinaryOp, line: usize, col: usize, r: Result<Value, ParseError>)
    requires
        wf_value(v1),
        wf_value(v2),
        binary_result_ok(v1, v2, op, line, col, r),
    ensures
        r matches Ok(x) ==> wf_value(x@),
{
    let (p1, p2) = promote(v1, v2);
    if let Ok(x) = r {
        if let (BinaryOp::Plus, ValueModel::Arr(xs, t1)) = (op, p1) {
            if let ValueModel::Arr(ys, t2) = p2 {
                if let Some((TypeModel::Arr(t), _)) = model_most_specific(model_type_of(p1), model_type_of(p2)) {
                    assert(model_most_specific(t1, t2) is Some);
                    lemma_most_specific_generalized(t1, t2);
                    lemma_wf_elems(xs, t1, xs.len());
                    lemma_wf_elems(ys, t2, ys.len());
                    let zs = xs + ys;
                    assert forall|i: int| 0 <= i < zs.len() implies wf_value(#[trigger] zs[i])
                        && model_generalizes(model_type_of(zs[i]), *t) by {
                        if i < xs.len() {
                            assert(zs[i] == xs[i]);
                            lemma_generalizes_transitive(model_type_of(xs[i]), t1, *t);
                        } else {
                            assert(zs[i] == ys[i - xs.len()]);
                            lemma_generalizes_transitive(model_type_of(ys[i - xs.len()]), t2, *t);
                        }
                    }
                    lemma_wf_elems(zs, *t, zs.len());
                }
            }
        }
    }
}

/// The type of a value is never `Any`.
pub proof fn lemma_type_of_not_any(v: ValueModel)
    ensures
        !(model_type_of(v) is Any),
{
}


/// The stream moved forward over the same input.
pub open spec fn advanced(before: CharStream, after: CharStream) -> bool {
    &&& after.wf()
    &&& after.contents@ == before.contents@
    &&& after.file == before.file
    &&& after.pos >= before.pos
}

/// The input left to read.
pub open spec fn remaining(stream: CharStream) -> nat {
    (stream.contents@.len() - stream.pos) as nat
}

/// The recursion depth fits: at most one past the maximum, plus one for each character read.
pub open spec fn depth_ok(stream: CharStream, depth: usize) -> bool {
    depth <= MAX_DEPTH + 1 + stream.pos
}

/// The depth of a container, which may be one deeper than that of the value it is.
pub open spec fn nested_depth_ok(stream: CharStream, depth: usize) -> bool {
    depth <= MAX_DEPTH + 2 + stream.pos
}

/// The values of the pairs are well-formed.
pub open spec fn pair_values_wf(ps: Seq<Pair>) -> bool {
    forall|i: int| 0 <= i < ps.len() ==> wf_value((#[trigger] ps[i]).1@)
}

/// The global variables have distinct names and well-formed values.
pub open spec fn globals_wf(gs: Seq<(String, Value)>) -> bool {
    &&& forall|i: int| 0 <= i < gs.len() ==> wf_value((#[trigger] gs[i]).1@)
    &&& forall|i: int, j: int| 0 <= i < j < gs.len() ==> (#[trigger] gs[i]).0@ != (#[trigger] gs[j]).0@
}

/// An object being parsed: the fields read so far have distinct regular names, recorded in
/// `seen` in the same order, and well-formed values; the parent, if any, is well-formed.
pub open spec fn obj_in_progress(pairs: Seq<Pair>, seen: Seq<String>, parent: Option<Obj>) -> bool {
    &&& pair_values_wf(pairs)
    &&& seen.len() == pairs.len()
    &&& forall|i: int| 0 <= i < pairs.len() ==> (#[trigger] seen[i])@ == pairs[i].0@
    &&& forall|i: int| 0 <= i < pairs.len() ==> regular_field_name((#[trigger] pairs[i]).0@)
    &&& forall|i: int, j: int| 0 <= i < j < pairs.len() ==> (#[trigger] pairs[i]).0@ != (#[trigger] pairs[j]).0@
    &&& parent matches Some(p) ==> wf_obj(p@)
}

/// An object made of the pairs and parent of an object being parsed is well-formed.
proof fn lemma_obj_wf(pairs: Seq<Pair>, seen: Seq<String>, parent: Option<Obj>, o: ObjModel)
    requires
        obj_in_progress(pairs, seen, parent),
        o.pairs == Seq::new(pairs.len(), |i: int| (pairs[i].0@, pairs[i].1@)),
        o.parent == (match parent {
            Some(p) => Some(Box::new(p@)),
            None => None,
        }),
    ensures
        wf_obj(o),
{
    lemma_wf_pairs(o.pairs, o.pairs.len());
    assert forall|i: int| 0 <= i < o.pairs.len() implies wf_value((#[trigger] o.pairs[i]).1) by {
        assert(o.pairs[i].1 == pairs[i].1@);
    }
    assert forall|i: int| 0 <= i < o.pairs.len() implies regular_field_name((#[trigger] o.pairs[i]).0) by {
        assert(o.pairs[i].0 == pairs[i].0@);
    }
    assert forall|i: int, j: int| 0 <= i < j < o.pairs.len() implies (#[trigger] o.pairs[i]).0 != (#[trigger] o.pairs[j]).0 by {
        assert(o.pairs[i].0 == pairs[i].0@);
        assert(o.pairs[j].0 == pairs[j].0@);
    }
}

/// The characters from `i` up to where the run of field characters that starts at `i` ends
/// are field characters.
proof fn lemma_field_chars_run(s: Seq<char>, i: int, k: int)
    requires
        0 <= i <= k < field_chars_end(s, i),
    ensures
        k < s.len(),
        is_field_run_char(s[k]),
    decreases s.len() - i,
{
    if k > i {
        lemma_field_chars_run(s, i + 1, k);
    }
}

/// The name of a regular field, as `parse_field` reads it, is a regular field name.
proof fn lemma_regular_name(s: Seq<char>, p: int, n: Seq<char>)
    requires
        0 <= p < s.len(),
        s[p] != '@',
        scan_field(s, p) matches FieldScan::Name(m, _) && m == n,
        !(n.len() > 0 && n[0] == '^'),
    ensures
        regular_field_name(n),
{
    let e = field_chars_end(s, p + 1);
    lemma_field_chars_end_bound(s, p + 1);
    assert(n == s.subrange(p, e));
    assert forall|j: int| 0 <= j < n.len() implies crate::value::spec_is_name_char(#[trigger] n[j], j == 0) by {
        if j > 0 {
            lemma_field_chars_run(s, p + 1, p + j);
            lemma_field_char_not_first(s[p + j]);
        }
    }
}

/// Where the global variable `name` is, if defined.
fn global_index(globals: &Vec<(String, Value)>, name: &str) -> (r: Option<usize>)
    ensures
        match r {
            Some(i) => i < globals@.len() && globals@[i as int].0@ == name@,
            None => forall|j: int| 0 <= j < globals@.len() ==> (#[trigger] globals@[j]).0@ != name@,
        },
{
    let n = globals.len();
    let mut i: usize = 0;
    while i < n
        invariant
            n == globals@.len(),
            i <= n,
            forall|j: int| 0 <= j < i ==> (#[trigger] globals@[j]).0@ != name@,
        decreases n - i,
    {
        if str_equals(globals[i].0.as_str(), name) {
            return Some(i);
        }
        i = i + 1;
    }
    None
}

/// The value of the global variable `name`, if defined.
fn get_global(globals: &Vec<(String, Value)>, name: &str) -> (r: Option<Value>)
    ensures
        r is None <==> !exists|i: int| 0 <= i < globals@.len() && (#[trigger] globals@[i]).0@ == name@,
        r matches Some(v) ==> exists|i: int|
            0 <= i < globals@.len() && (#[trigger] globals@[i]).0@ == name@ && globals@[i].1@ == v@
                && forall|j: int| 0 <= j < i ==> (#[trigger] globals@[j]).0@ != name@,
{
    let n = globals.len();
    let mut i: usize = 0;
    while i < n
        invariant
            n == globals@.len(),
            i <= n,
            forall|j: int| 0 <= j < i ==> (#[trigger] globals@[j]).0@ != name@,
        decreases n - i,
    {
        if str_equals(globals[i].0.as_str(), name) {
            return Some(globals[i].1.copy());
        }
        i = i + 1;
    }
    None
}

/// Returns true if `name` is one of `names`.
fn contains_name(names: &Vec<String>, name: &str) -> (r: bool)
    ensures
        r <==> exists|i: int| 0 <= i < names@.len() && (#[trigger] names@[i])@ == name@,
{
    let n = names.len();
    let mut i: usize = 0;
    while i < n
        invariant
            n == names@.len(),
            i <= n,
            forall|j: int| 0 <= j < i ==> (#[trigger] names@[j])@ != name@,
        decreases n - i,
    {
        if str_equals(names[i].as_str(), name) {
            return true;
        }
        i = i + 1;
    }
    false
}

/// The value of the field `name` among `pairs`, if any.
fn find_pair(pairs: &Vec<Pair>, name: &str) -> (r: Option<Value>)
    ensures
        r is None <==> !exists|i: int| 0 <= i < pairs@.len() && (#[trigger] pairs@[i]).0@ == name@,
        r matches Some(v) ==> exists|i: int|
            0 <= i < pairs@.len() && (#[trigger] pairs@[i]).0@ == name@ && pairs@[i].1@ == v@
                && forall|j: int| 0 <= j < i ==> (#[trigger] pairs@[j]).0@ != name@,
{
    let n = pairs.len();
    let mut i: usize = 0;
    while i < n
        invariant
            n == pairs@.len(),
            i <= n,
            forall|j: int| 0 <= j < i ==> (#[trigger] pairs@[j]).0@ != name@,
        decreases n - i,
    {
        if str_equals(pairs[i].0.as_str(), name) {
            return Some(pairs[i].1.copy());
        }
        i = i + 1;
    }
    None
}

// Parses an Obj given a character stream.
pub fn parse_obj_stream(stream: &mut CharStream, included: &mut Included) -> (r: Result<Obj, ParseError>)
    requires
        old(stream).wf(),
        old(included).current_inactive(),
        old(included).values_wf(),
    ensures
        advanced(*old(stream), *final(stream)),
        skip_ws_end(old(stream).contents@, old(stream).pos as int, false) == old(stream).contents@.len()
            ==> (r matches Ok(o) && o@.pairs.len() == 0 && o@.parent is None),
        r matches Ok(o) ==> wf_obj(o@),
        r matches Ok(o) ==> exists|g1: Seq<(String, Value)>|
            #[trigger] obj_fields_read(
                old(stream).contents@,
                skip_ws_end(old(stream).contents@, old(stream).pos as int, false),
                old(stream).file,
                None,
                1,
                Seq::empty(),
                g1,
                *old(included),
                *final(included),
                o@,
                final(stream).pos as int,
            ),
        r is Ok ==> old(included).same_frame(final(included)),
        r is Ok ==> final(included).values_wf(),
        ({
            let s = old(stream).contents@;
            let start = skip_ws_end(s, old(stream).pos as int, false);
            simple_text(s, start, Seq::empty(), Seq::empty(), false) ==> (r matches Ok(o) && exists|
                gs: Seq<(Seq<char>, ValueModel)>,
            | simple_fields_ok(s, start, 0, o@.pairs, 0, gs, false, o@.parent))
        }),
        ({
            let s = old(stream).contents@;
            let start = skip_ws_end(s, old(stream).pos as int, false);
            simple_error_at(s, start, Seq::empty(), Seq::empty(), false, None, 1) matches Some(q) ==> (r matches Err(err)
                && var_error_ok(
                var_scan(s, q).0,
                s[q] == '@',
                line_col(s, q as nat).0 as usize,
                line_col(s, q as nat).1 as usize,
                Err::<Value, ParseError>(err),
            ))
        }),
    decreases old(included).fresh(), old(included).outside(), remaining(*old(stream)), 3nat,
{
    let mut obj_pairs: Vec<Pair> = Vec::new();

    // Go to the first non-whitespace character, or return if there is none.
    if !stream.skip_whitespace() {
        let o = Obj::from_pairs_unchecked(obj_pairs, None);
        proof {
            lemma_obj_wf(obj_pairs@, Seq::empty(), None, o@);
            assert(o@.pairs =~= Seq::empty());
            let s = old(stream).contents@;
            let start = skip_ws_end(s, old(stream).pos as int, false);
            assert(simple_fields_ok(s, start, 0, o@.pairs, 0, Seq::<(Seq<char>, ValueModel)>::empty(), false, o@.parent));
            lemma_skip_ws_bounds(s, old(stream).pos as int, false);
            let ps = seq![stream.pos as int];
            let pss = seq![obj_pairs@];
            let gs0 = seq![Seq::<(String, Value)>::empty()];
            let incs = seq![*included];
            let pars = seq![None::<Obj>];
            assert(fields_chain(s, old(stream).file, None, 1, ps, pss, gs0, incs, pars));
            assert(fields_choice(ps, pss, gs0, incs, pars));
            assert(obj_fields_read(s, start, old(stream).file, None, 1, Seq::empty(), Seq::empty(), *old(included), *included, o@, stream.pos as int));
        }
        return Ok(o);
    }

    let mut globals: Vec<(String, Value)> = Vec::new();
    let mut parent: Option<Obj> = None;
    let mut seen_fields: Vec<String> = Vec::new();
    let ghost s0 = *old(stream);
    let ghost inc0 = *old(included);
    let ghost text = s0.contents@;
    let ghost start = stream.pos as int;
    let ghost simple = simple_text(text, start, Seq::empty(), Seq::empty(), false);
    let ghost err_q = simple_error_at(text, start, Seq::empty(), Seq::empty(), false, None, 1);
    proof {
        assert(types_env(pairs_model(obj_pairs@)) =~= Seq::empty());
        assert(types_env(named_values(globals@)) =~= Seq::empty());
    }

    proof {
        lemma_skip_ws_bounds(text, s0.pos as int, false);
    }
    let ghost mut ps: Seq<int> = seq![start];
    let ghost mut pss: Seq<Seq<Pair>> = seq![obj_pairs@];
    let ghost mut gsv: Seq<Seq<(String, Value)>> = seq![globals@];
    let ghost mut incv: Seq<Included> = seq![*included];
    let ghost mut pars: Seq<Option<Obj>> = seq![parent];

    // Parse all field/value pairs for this Obj.
    loop
        invariant_except_break
            stream.pos < stream.contents@.len(),
            err_q is Some ==> simple_error_at(
                text,
                stream.pos as int,
                types_env(pairs_model(obj_pairs@)),
                types_env(named_values(globals@)),
                parent is Some,
                None,
                1,
            ) == err_q,
        invariant
            err_q == simple_error_at(text, start, Seq::empty(), Seq::empty(), false, None, 1),
            ps[ps.len() - 1] == stream.pos,
            fields_prefix(text, s0.file, None, 1, ps, pss, gsv, incv, pars),
            ps[0] == start && pss[0] == Seq::<Pair>::empty() && pars[0] is None && gsv[0]
                == Seq::<(String, Value)>::empty() && incv[0] == *old(included),
            pss[ps.len() - 1] == obj_pairs@ && pars[ps.len() - 1] == parent && gsv[ps.len() - 1] == globals@
                && incv[ps.len() - 1] == *included,
            skip_ws_end(s0.contents@, s0.pos as int, false) < s0.contents@.len(),
            s0 == *old(stream),
            text == s0.contents@,
            start == skip_ws_end(text, s0.pos as int, false),
            simple == simple_text(text, start, Seq::empty(), Seq::empty(), false),
            advanced(s0, *stream),
            inc0 == *old(included),
            inc0.same_frame(included),
            inc0.current_inactive(),
            included.values_wf(),
            globals_wf(globals@),
            obj_in_progress(obj_pairs@, seen_fields@, parent),
            simple ==> simple_text(
                text,
                stream.pos as int,
                types_env(pairs_model(obj_pairs@)),
                types_env(named_values(globals@)),
                parent is Some,
            ),
            simple ==> forall|ps: Seq<(Seq<char>, ValueModel)>, gs: Seq<(Seq<char>, ValueModel)>, par: Option<Box<ObjModel>>|
                fields_start(ps, gs, par, pairs_model(obj_pairs@), named_values(globals@), parent_model(parent))
                    && simple_fields_ok(
                    text,
                    stream.pos as int,
                    obj_pairs@.len() as nat,
                    ps,
                    globals@.len() as nat,
                    gs,
                    parent is Some,
                    par,
                ) ==> #[trigger] simple_fields_ok(text, start, 0, ps, 0, gs, false, par),
        ensures
            simple ==> stream.pos >= stream.contents@.len(),
            err_q is None,
        decreases stream.contents@.len() - stream.pos,
    {
        let ghost pos0 = stream.pos as int;
        let ghost pairs0 = obj_pairs@;
        let ghost globals0 = globals@;
        let ghost par0 = parent;
        proof {
            if let FieldScan::Name(n, fe) = scan_field(text, pos0) {
                let q = skip_ws_end(text, fe, false);
                if 0 <= q < text.len() {
                    lemma_var_type(var_scan(text, q).0, text[q] == '@', pairs_model(pairs0), named_values(globals0));
                }
            }
        }
        let more = parse_field_value_pair(
            stream,
            &mut obj_pairs,
            &mut seen_fields,
            &mut globals,
            included,
            &mut parent,
            1,
            None,
        )?;
        proof {
            if simple || err_q is Some {
                let pm0 = pairs_model(pairs0);
                let pm1 = pairs_model(obj_pairs@);
                let gm0 = named_values(globals0);
                let gm1 = named_values(globals@);
                assert(pos0 < text.len());
                assert(simple_field(text, pos0, types_env(pm0), types_env(gm0), None, 1) is Some);
                let (n, q, e) = simple_field(text, pos0, types_env(pm0), types_env(gm0), None, 1)->0;
                assert(stream.pos == skip_ws_end(text, e, false));
                if n == seq!['^'] {
                    assert(pm1 =~= pm0);
                    assert(gm1 =~= gm0);
                    lemma_parent_obj(text, q, pm0, gm0, parent->0@, 1);
                } else if text[pos0] == '@' {
                    assert(pm1 =~= pm0);
                } else {
                    assert(pm1.drop_last() =~= pm0);
                    assert(gm1 =~= gm0);
                }
                assert(field_step(text, pos0, q, n, pm0, pm1, gm0, gm1, parent_model(par0), parent_model(parent), 1));
                if simple {
                    lemma_simple_step(text, start, pos0, stream.pos as int, pm0, pm1, gm0, gm1, parent_model(par0), parent_model(parent));
                }
                if err_q is Some {
                    lemma_error_step(text, pos0, stream.pos as int, pm0, pm1, gm0, gm1, parent_model(par0), parent_model(parent), None, 1);
                }
            }
        }
        proof {
            lemma_fields_chain_push(
                text,
                s0.file,
                None,
                1,
                ps,
                pss,
                gsv,
                incv,
                pars,
                stream.pos as int,
                obj_pairs@,
                globals@,
                *included,
                parent,
            );
            ps = ps.push(stream.pos as int);
            pss = pss.push(obj_pairs@);
            gsv = gsv.push(globals@);
            incv = incv.push(*included);
            pars = pars.push(parent);
        }
        if !more {
            break;
        }
    }

    let ghost (gp, gs, gpar) = (obj_pairs@, seen_fields@, parent);
    proof {
        assert(fields_chain(text, s0.file, None, 1, ps, pss, gsv, incv, pars));
        assert(fields_choice(ps, pss, gsv, incv, pars));
    }
    let ghost g_end = globals@;
    let o = Obj::from_pairs_unchecked(obj_pairs, parent);
    proof {
        lemma_obj_wf(gp, gs, gpar, o@);
        if simple {
            let gm = named_values(globals@);
            assert(o@.pairs =~= pairs_model(gp));
            assert(pairs_model(gp).take(gp.len() as int) =~= pairs_model(gp));
            assert(gm.take(gm.len() as int) =~= gm);
            assert(fields_start(o@.pairs, gm, o@.parent, pairs_model(gp), gm, parent_model(gpar)));
            assert(simple_fields_ok(text, stream.pos as int, gp.len() as nat, o@.pairs, gm.len() as nat, gm, gpar is Some, o@.parent));
            assert(simple_fields_ok(text, start, 0, o@.pairs, 0, gm, false, o@.parent));
        }
        assert(o@ == ObjModel { pairs: pairs_model(gp), parent: parent_model(gpar), token: 0 });
        assert(obj_fields_read(
            text,
            start,
            s0.file,
            None,
            1,
            Seq::empty(),
            g_end,
            *old(included),
            *included,
            o@,
            stream.pos as int,
        ));
    }
    Ok(o)
}

/// The parent of an object being read, as a model.
pub open spec fn parent_model(parent: Option<Obj>) -> Option<Box<ObjModel>> {
    match parent {
        Some(p) => Some(Box::new(p@)),
        None => None,
    }
}

/// `ps` starts with the pairs `pairs`, `gs` with the globals `globals`, and `par` is `parent`
/// once that is set.
pub open spec fn fields_start(
    ps: Seq<(Seq<char>, ValueModel)>,
    gs: Seq<(Seq<char>, ValueModel)>,
    par: Option<Box<ObjModel>>,
    pairs: Seq<(Seq<char>, ValueModel)>,
    globals: Seq<(Seq<char>, ValueModel)>,
    parent: Option<Box<ObjModel>>,
) -> bool {
    &&& pairs.len() <= ps.len()
    &&& ps.take(pairs.len() as int) == pairs
    &&& globals.len() <= gs.len()
    &&& gs.take(globals.len() as int) == globals
    &&& parent is Some ==> par == parent
}

/// The value of a parent field, whose written value has the type of an object, is an object
/// as `simple_obj_ok` says.
proof fn lemma_parent_obj(
    s: Seq<char>,
    q: int,
    pairs: Seq<(Seq<char>, ValueModel)>,
    globals: Seq<(Seq<char>, ValueModel)>,
    o: ObjModel,
    d: int,
)
    requires
        0 <= q < s.len(),
        simple_type(s, q, types_env(pairs), types_env(globals), d) == TypeModel::Obj,
        simple_value_ok(s, q, pairs, globals, ValueModel::Obj(o), d),
    ensures
        simple_obj_ok(s, q, pairs, globals, o, d),
{
}

/// What a simple field read at `pos` adds: the pairs `pairs1`, the globals `globals1` and the
/// parent `parent1` after it, from `pairs0`, `globals0` and `parent0` before it.
pub open spec fn field_step(
    s: Seq<char>,
    pos: int,
    q: int,
    n: Seq<char>,
    pairs0: Seq<(Seq<char>, ValueModel)>,
    pairs1: Seq<(Seq<char>, ValueModel)>,
    globals0: Seq<(Seq<char>, ValueModel)>,
    globals1: Seq<(Seq<char>, ValueModel)>,
    parent0: Option<Box<ObjModel>>,
    parent1: Option<Box<ObjModel>>,
    d: int,
) -> bool {
    if n == seq!['^'] {
        &&& pairs1 == pairs0
        &&& globals1 == globals0
        &&& parent0 is None
        &&& parent1 matches Some(po) && simple_obj_ok(s, q, pairs0, globals0, *po, d)
    } else if s[pos] == '@' {
        &&& pairs1 == pairs0
        &&& parent1 == parent0
        &&& globals1.len() == globals0.len() + 1
        &&& globals1.drop_last() == globals0
        &&& globals1.last().0 == n
        &&& simple_value_ok(s, q, pairs0, globals0, globals1.last().1, d)
    } else {
        &&& globals1 == globals0
        &&& parent1 == parent0
        &&& pairs1.len() == pairs0.len() + 1
        &&& pairs1.drop_last() == pairs0
        &&& pairs1.last().0 == n
        &&& simple_value_ok(s, q, pairs0, globals0, pairs1.last().1, d)
    }
}

/// The names and types of pairs with one more pair.
proof fn lemma_types_env_push(ps: Seq<(Seq<char>, ValueModel)>, ps1: Seq<(Seq<char>, ValueModel)>)
    requires
        ps1.len() == ps.len() + 1,
        ps1.drop_last() == ps,
    ensures
        types_env(ps1) == types_env(ps).push((ps1.last().0, model_type_of(ps1.last().1))),
{
    assert(types_env(ps1) =~= types_env(ps).push((ps1.last().0, model_type_of(ps1.last().1))));
}

/// One more simple field read at the top: the text after it is simple too, and the fields
/// and globals of the whole text are found as before.
proof fn lemma_simple_step(
    s: Seq<char>,
    start: int,
    pos: int,
    next: int,
    pairs0: Seq<(Seq<char>, ValueModel)>,
    pairs1: Seq<(Seq<char>, ValueModel)>,
    globals0: Seq<(Seq<char>, ValueModel)>,
    globals1: Seq<(Seq<char>, ValueModel)>,
    parent0: Option<Box<ObjModel>>,
    parent1: Option<Box<ObjModel>>,
)
    requires
        0 <= pos < s.len(),
        simple_text(s, pos, types_env(pairs0), types_env(globals0), parent0 is Some),
        simple_field(s, pos, types_env(pairs0), types_env(globals0), None, 1) matches Some((n, q, e)) && next
            == skip_ws_end(s, e, false) && field_step(s, pos, q, n, pairs0, pairs1, globals0, globals1, parent0, parent1, 1),
        forall|ps: Seq<(Seq<char>, ValueModel)>, gs: Seq<(Seq<char>, ValueModel)>, par: Option<Box<ObjModel>>|
            fields_start(ps, gs, par, pairs0, globals0, parent0) && simple_fields_ok(
                s,
                pos,
                pairs0.len() as nat,
                ps,
                globals0.len() as nat,
                gs,
                parent0 is Some,
                par,
            ) ==> #[trigger] simple_fields_ok(s, start, 0, ps, 0, gs, false, par),
    ensures
        simple_text(s, next, types_env(pairs1), types_env(globals1), parent1 is Some),
        forall|ps: Seq<(Seq<char>, ValueModel)>, gs: Seq<(Seq<char>, ValueModel)>, par: Option<Box<ObjModel>>|
            fields_start(ps, gs, par, pairs1, globals1, parent1) && simple_fields_ok(
                s,
                next,
                pairs1.len() as nat,
                ps,
                globals1.len() as nat,
                gs,
                parent1 is Some,
                par,
            ) ==> #[trigger] simple_fields_ok(s, start, 0, ps, 0, gs, false, par),
{
    let (n, q, e) = simple_field(s, pos, types_env(pairs0), types_env(globals0), None, 1)->0;
    let k = pairs0.len();
    let j = globals0.len();
    if n != seq!['^'] {
        if s[pos] == '@' {
            lemma_simple_type(s, q, pairs0, globals0, globals1.last().1, 1);
            lemma_types_env_push(globals0, globals1);
        } else {
            lemma_simple_type(s, q, pairs0, globals0, pairs1.last().1, 1);
            lemma_types_env_push(pairs0, pairs1);
        }
    }
    assert forall|ps: Seq<(Seq<char>, ValueModel)>, gs: Seq<(Seq<char>, ValueModel)>, par: Option<Box<ObjModel>>|
        fields_start(ps, gs, par, pairs1, globals1, parent1) && simple_fields_ok(
            s,
            next,
            pairs1.len() as nat,
            ps,
            globals1.len() as nat,
            gs,
            parent1 is Some,
            par,
        ) implies #[trigger] simple_fields_ok(s, start, 0, ps, 0, gs, false, par) by {
        if n == seq!['^'] {
        } else if s[pos] == '@' {
            assert(gs.take(j as int) =~= globals1.drop_last());
            assert(gs[j as int] == globals1.last());
        } else {
            assert(ps.take(k as int) =~= pairs1.drop_last());
            assert(ps[k as int] == pairs1.last());
        }
        assert(fields_start(ps, gs, par, pairs0, globals0, parent0));
        assert(simple_fields_ok(s, pos, k as nat, ps, j as nat, gs, parent0 is Some, par));
    }
}

/// One more simple field read at the top: the place of a field whose value names nothing
/// (see `simple_error_at`) is the same after it.
proof fn lemma_error_step(
    s: Seq<char>,
    pos: int,
    next: int,
    pairs0: Seq<(Seq<char>, ValueModel)>,
    pairs1: Seq<(Seq<char>, ValueModel)>,
    globals0: Seq<(Seq<char>, ValueModel)>,
    globals1: Seq<(Seq<char>, ValueModel)>,
    parent0: Option<Box<ObjModel>>,
    parent1: Option<Box<ObjModel>>,
    cur_brace: Option<char>,
    d: int,
)
    requires
        0 <= pos < s.len(),
        simple_error_at(s, pos, types_env(pairs0), types_env(globals0), parent0 is Some, cur_brace, d) is Some,
        simple_field(s, pos, types_env(pairs0), types_env(globals0), cur_brace, d) matches Some((n, q, e)) && next
            == skip_ws_end(s, e, false) && field_step(s, pos, q, n, pairs0, pairs1, globals0, globals1, parent0, parent1, d),
    ensures
        simple_error_at(s, next, types_env(pairs1), types_env(globals1), parent1 is Some, cur_brace, d) == simple_error_at(
            s,
            pos,
            types_env(pairs0),
            types_env(globals0),
            parent0 is Some,
            cur_brace,
            d,
        ),
{
    let (n, q, e) = simple_field(s, pos, types_env(pairs0), types_env(globals0), cur_brace, d)->0;
    if n != seq!['^'] {
        if s[pos] == '@' {
            lemma_simple_type(s, q, pairs0, globals0, globals1.last().1, d);
            lemma_types_env_push(globals0, globals1);
        } else {
            lemma_simple_type(s, q, pairs0, globals0, pairs1.last().1, d);
            lemma_types_env_push(pairs0, pairs1);
        }
    }
}

/// `o` has the pairs `pairs` first, and the parent `parent` once that is set.
pub open spec fn obj_starts(o: ObjModel, pairs: Seq<(Seq<char>, ValueModel)>, parent: Option<Box<ObjModel>>) -> bool {
    &&& pairs.len() <= o.pairs.len()
    &&& o.pairs.take(pairs.len() as int) == pairs
    &&& parent is Some ==> o.parent == parent
}

/// One more simple field read inside braces: the rest of the object is simple too, ending at
/// the same `}`, and the fields of the whole object are found as before.
proof fn lemma_body_step(
    s: Seq<char>,
    start: int,
    pos: int,
    next: int,
    pairs0: Seq<(Seq<char>, ValueModel)>,
    pairs1: Seq<(Seq<char>, ValueModel)>,
    globals: Seq<(Seq<char>, ValueModel)>,
    parent0: Option<Box<ObjModel>>,
    parent1: Option<Box<ObjModel>>,
    d: int,
)
    requires
        0 <= pos < s.len(),
        s[pos] != '}',
        simple_body(s, pos, types_env(pairs0), types_env(globals), parent0 is Some, d) is Some,
        simple_field(s, pos, types_env(pairs0), types_env(globals), Some('}'), d) matches Some((n, q, e)) && next
            == skip_ws_end(s, e, false) && field_step(s, pos, q, n, pairs0, pairs1, globals, globals, parent0, parent1, d),
        forall|o: ObjModel|
            obj_starts(o, pairs0, parent0) && body_fields_ok(s, pos, pairs0.len() as nat, o, parent0 is Some, globals, d)
                ==> #[trigger] body_fields_ok(s, start, 0, o, false, globals, d),
    ensures
        simple_body(s, next, types_env(pairs1), types_env(globals), parent1 is Some, d) == simple_body(
            s,
            pos,
            types_env(pairs0),
            types_env(globals),
            parent0 is Some,
            d,
        ),
        forall|o: ObjModel|
            obj_starts(o, pairs1, parent1) && body_fields_ok(s, next, pairs1.len() as nat, o, parent1 is Some, globals, d)
                ==> #[trigger] body_fields_ok(s, start, 0, o, false, globals, d),
{
    let (n, q, e) = simple_field(s, pos, types_env(pairs0), types_env(globals), Some('}'), d)->0;
    let k = pairs0.len();
    if n != seq!['^'] {
        lemma_simple_type(s, q, pairs0, globals, pairs1.last().1, d);
        lemma_types_env_push(pairs0, pairs1);
    }
    assert forall|o: ObjModel|
        obj_starts(o, pairs1, parent1) && body_fields_ok(s, next, pairs1.len() as nat, o, parent1 is Some, globals, d)
            implies #[trigger] body_fields_ok(s, start, 0, o, false, globals, d) by {
        if n != seq!['^'] {
            assert(o.pairs.take(k as int) =~= pairs1.drop_last());
            assert(o.pairs[k as int] == pairs1.last());
        }
        assert(obj_starts(o, pairs0, parent0));
        assert(body_fields_ok(s, pos, k as nat, o, parent0 is Some, globals, d));
    }
}

/// A choice of the globals after a value, the value and where its reading stopped, for
/// `field_step_read`; it names the choice so that proofs can point at it.
pub open spec fn step_choice(gv: Seq<(String, Value)>, x: Value, end: int) -> bool {
    true
}

/// A choice of object, closing position and states for `container_read`; it names the choice so
/// that proofs can point at it.
pub open spec fn obj_choice(o: ObjModel, cl: int, g: Seq<(String, Value)>, i: Included) -> bool {
    true
}

/// A choice of field starts and states for `fields_chain`; it names the choice so that proofs
/// can point at it.
pub open spec fn fields_choice(
    ps: Seq<int>,
    pss: Seq<Seq<Pair>>,
    gs: Seq<Seq<(String, Value)>>,
    incs: Seq<Included>,
    pars: Seq<Option<Obj>>,
) -> bool {
    true
}

/// The fields at the starts `ps` were read one after the other (see `field_step_read`), inside
/// the bracket `cur_brace` if any: each takes the pairs, globals, include state and parent from
/// their entry in `pss`, `gs`, `incs`, `pars` to the next, and the next field starts where it
/// ended.
pub open spec fn fields_chain(
    s: Seq<char>,
    file: Option<String>,
    cur_brace: Option<char>,
    depth: usize,
    ps: Seq<int>,
    pss: Seq<Seq<Pair>>,
    gs: Seq<Seq<(String, Value)>>,
    incs: Seq<Included>,
    pars: Seq<Option<Obj>>,
) -> bool
    decreases s.len() - ps[0], 2int,
{
    &&& ps.len() >= 1 && pss.len() == ps.len() && gs.len() == ps.len() && incs.len() == ps.len() && pars.len()
        == ps.len()
    &&& forall|k: int| 0 <= k < ps.len() ==> ps[0] <= #[trigger] ps[k] <= s.len()
    &&& forall|k: int|
        0 <= k < ps.len() - 1 && ps[0] <= ps[k] <= s.len() ==> field_step_read(
            s,
            ps[k],
            file,
            cur_brace,
            depth,
            #[trigger] pss[k],
            pss[k + 1],
            gs[k],
            gs[k + 1],
            incs[k],
            incs[k + 1],
            pars[k],
            pars[k + 1],
            ps[k + 1],
        )
}

/// The same chain of fields as `fields_chain`, stated for proofs that build it one field at a
/// time.
pub open spec fn fields_prefix(
    s: Seq<char>,
    file: Option<String>,
    cur_brace: Option<char>,
    depth: usize,
    ps: Seq<int>,
    pss: Seq<Seq<Pair>>,
    gs: Seq<Seq<(String, Value)>>,
    incs: Seq<Included>,
    pars: Seq<Option<Obj>>,
) -> bool
{
    &&& ps.len() >= 1 && pss.len() == ps.len() && gs.len() == ps.len() && incs.len() == ps.len() && pars.len()
        == ps.len()
    &&& forall|k: int| 0 <= k < ps.len() ==> ps[0] <= #[trigger] ps[k] <= s.len()
    &&& forall|k: int|
        0 <= k < ps.len() - 1 && ps[0] <= ps[k] <= s.len() ==> field_step_read(
            s,
            ps[k],
            file,
            cur_brace,
            depth,
            #[trigger] pss[k],
            pss[k + 1],
            gs[k],
            gs[k + 1],
            incs[k],
            incs[k + 1],
            pars[k],
            pars[k + 1],
            ps[k + 1],
        )
}

/// The object `o` is what reading the fields from `q` on gives, inside the bracket `cur_brace` if
/// any, up to `last` (see `fields_chain`), starting with no pairs nor parent, the globals `g0` and
/// the include state `inc0`, and ending with `g1` and `inc1`.
pub open spec fn obj_fields_read(
    s: Seq<char>,
    q: int,
    file: Option<String>,
    cur_brace: Option<char>,
    depth: usize,
    g0: Seq<(String, Value)>,
    g1: Seq<(String, Value)>,
    inc0: Included,
    inc1: Included,
    o: ObjModel,
    last: int,
) -> bool
    decreases s.len() - q, 3int,
{
    0 <= q <= s.len() && exists|ps: Seq<int>, pss: Seq<Seq<Pair>>, gs: Seq<Seq<(String, Value)>>, incs: Seq<Included>, pars: Seq<Option<Obj>>|
        #[trigger] fields_choice(ps, pss, gs, incs, pars) && ps.len() >= 1 && ps[0] == q && fields_chain(
            s,
            file,
            cur_brace,
            depth,
            ps,
            pss,
            gs,
            incs,
            pars,
        ) && pss[0] == Seq::<Pair>::empty() && pars[0] is None && gs[0] == g0 && incs[0] == inc0 && {
            let n = ps.len() - 1;
            &&& ps[n] == last && gs[n] == g1 && incs[n] == inc1
            &&& o == ObjModel { pairs: pairs_model(pss[n]), parent: parent_model(pars[n]), token: 0 }
        }
}

/// One more field read extends a chain of fields read one after the other.
proof fn lemma_fields_chain_push(
    s: Seq<char>,
    file: Option<String>,
    cur_brace: Option<char>,
    depth: usize,
    ps: Seq<int>,
    pss: Seq<Seq<Pair>>,
    gs: Seq<Seq<(String, Value)>>,
    incs: Seq<Included>,
    pars: Seq<Option<Obj>>,
    p1: int,
    pairs1: Seq<Pair>,
    g1: Seq<(String, Value)>,
    inc1: Included,
    par1: Option<Obj>,
)
    requires
        fields_prefix(s, file, cur_brace, depth, ps, pss, gs, incs, pars),
        ps[0] <= p1 <= s.len(),
        field_step_read(
            s,
            ps[ps.len() - 1],
            file,
            cur_brace,
            depth,
            pss[ps.len() - 1],
            pairs1,
            gs[ps.len() - 1],
            g1,
            incs[ps.len() - 1],
            inc1,
            pars[ps.len() - 1],
            par1,
            p1,
        ),
    ensures
        fields_prefix(s, file, cur_brace, depth, ps.push(p1), pss.push(pairs1), gs.push(g1), incs.push(inc1), pars.push(par1)),
{
    let k = ps.len() - 1;
    let (ps2, pss2, gs2, incs2, pars2) = (ps.push(p1), pss.push(pairs1), gs.push(g1), incs.push(inc1), pars.push(par1));
    assert forall|j: int| 0 <= j < ps2.len() implies ps2[0] <= #[trigger] ps2[j] <= s.len() by {
        if j < ps.len() {
            assert(ps2[j] == ps[j]);
        }
    }
    assert forall|j: int| 0 <= j < ps2.len() - 1 implies field_step_read(
        s,
        ps2[j],
        file,
        cur_brace,
        depth,
        #[trigger] pss2[j],
        pss2[j + 1],
        gs2[j],
        gs2[j + 1],
        incs2[j],
        incs2[j + 1],
        pars2[j],
        pars2[j + 1],
        ps2[j + 1],
    ) by {
        if j < k {
            assert(ps2[j] == ps[j] && ps2[j + 1] == ps[j + 1]);
            assert(pss2[j] == pss[j] && pss2[j + 1] == pss[j + 1]);
            assert(gs2[j] == gs[j] && gs2[j + 1] == gs[j + 1]);
            assert(incs2[j] == incs[j] && incs2[j + 1] == incs[j + 1]);
            assert(pars2[j] == pars[j] && pars2[j + 1] == pars[j + 1]);
        }
    }
}

// Parses a sub-Obj in a file. It *must* start with { and end with }.
#[verifier::rlimit(100)]
pub fn parse_obj(stream: &mut CharStream, globals: &mut Vec<(String, Value)>, included: &mut Included, depth: usize) -> (r: Result<Value, ParseError>)
    requires
        old(stream).wf(),
        old(stream).peek_spec() == Some('{'),
        old(included).current_inactive(),
        nested_depth_ok(*old(stream), depth),
        globals_wf(old(globals)@),
        old(included).values_wf(),
    ensures
        advanced(*old(stream), *final(stream)),
        r is Ok ==> final(stream).pos > old(stream).pos,
        r matches Ok(v) ==> v is Obj && wf_value(v@),
        r matches Ok(v) ==> v@ matches ValueModel::Obj(o) && obj_fields_read(
            old(stream).contents@,
            skip_ws_end(old(stream).contents@, old(stream).pos + 1, false),
            old(stream).file,
            Some('}'),
            depth,
            old(globals)@,
            final(globals)@,
            *old(included),
            *final(included),
            o,
            final(stream).pos - 1,
        ),
        r is Ok ==> old(included).same_frame(final(included)),
        r is Ok ==> globals_wf(final(globals)@) && final(included).values_wf(),
        container_start_ok(
            old(stream).contents@,
            old(stream).pos as int,
            old(stream).file,
            depth,
            '}',
            ValueModel::Obj(ObjModel { pairs: Seq::empty(), parent: None, token: 0 }),
            r,
            final(stream).pos as int,
        ),
        depth <= MAX_DEPTH ==> match simple_body(
            old(stream).contents@,
            skip_ws_end(old(stream).contents@, old(stream).pos + 1, false),
            Seq::empty(),
            types_env(named_values(old(globals)@)),
            false,
            depth as int,
        ) {
            Some(cl) => r matches Ok(v) && v@ matches ValueModel::Obj(o) && body_fields_ok(
                old(stream).contents@,
                skip_ws_end(old(stream).contents@, old(stream).pos + 1, false),
                0,
                o,
                false,
                named_values(old(globals)@),
                depth as int,
            ) && final(stream).pos == cl + 1 && final(globals)@ == old(globals)@,
            None => true,
        },
        depth <= MAX_DEPTH ==> ({
            let s = old(stream).contents@;
            let q = skip_ws_end(s, old(stream).pos + 1, false);
            simple_error_at(s, q, Seq::empty(), types_env(named_values(old(globals)@)), false, Some('}'), depth as int) matches Some(
                qv,
            ) ==> (r matches Err(err) && err.file == old(stream).file && var_error_ok(
                var_scan(s, qv).0,
                s[qv] == '@',
                line_col(s, qv as nat).0 as usize,
                line_col(s, qv as nat).1 as usize,
                Err::<Value, ParseError>(err),
            ))
        }),
    decreases old(included).fresh(), old(included).outside(), remaining(*old(stream)), 0nat,
{
    // Check depth.
    if depth > MAX_DEPTH {
        return error(stream, ParseErrorKind::MaxDepth(stream.line(), stream.col()));
    }

    // We must already be at a '{'.
    let _ = stream.next();

    // Go to the first non-whitespace character, or error if there is none.
    if !stream.skip_whitespace() {
        return error(stream, ParseErrorKind::UnexpectedEnd(stream.line()));
    }

    let mut obj_pairs: Vec<Pair> = Vec::new();
    let mut parent: Option<Obj> = None;
    let mut seen_fields: Vec<String> = Vec::new();
    let ghost s0 = *old(stream);
    let ghost inc0 = *old(included);
    let ghost q = stream.pos as int;
    let ghost mut first = true;
    let ghost text = s0.contents@;
    let ghost gm = named_values(globals@);
    let ghost genv = types_env(gm);
    let ghost body = simple_body(text, q, Seq::empty(), genv, false, depth as int);
    let ghost cl: int = match body { Some(c) => c, None => 0 };
    let ghost err_q = simple_error_at(text, q, Seq::empty(), genv, false, Some('}'), depth as int);
    proof {
        assert(types_env(pairs_model(obj_pairs@)) =~= Seq::empty());
    }

    let ghost mut ps: Seq<int> = seq![q];
    let ghost mut pss: Seq<Seq<Pair>> = seq![obj_pairs@];
    let ghost mut gsv: Seq<Seq<(String, Value)>> = seq![globals@];
    let ghost mut incv: Seq<Included> = seq![*included];
    let ghost mut pars: Seq<Option<Obj>> = seq![parent];

    // Parse field/value pairs.
    loop
        invariant_except_break
            stream.pos < stream.contents@.len(),
            first ==> stream.pos == q,
            ps[ps.len() - 1] == stream.pos,
            err_q is Some ==> simple_error_at(
                text,
                stream.pos as int,
                types_env(pairs_model(obj_pairs@)),
                genv,
                parent is Some,
                Some('}'),
                depth as int,
            ) == err_q,
            body is Some ==> simple_body(
                text,
                stream.pos as int,
                types_env(pairs_model(obj_pairs@)),
                genv,
                parent is Some,
                depth as int,
            ) == body,
            body is Some ==> forall|o: ObjModel|
                obj_starts(o, pairs_model(obj_pairs@), parent_model(parent)) && body_fields_ok(
                    text,
                    stream.pos as int,
                    obj_pairs@.len() as nat,
                    o,
                    parent is Some,
                    gm,
                    depth as int,
                ) ==> #[trigger] body_fields_ok(text, q, 0, o, false, gm, depth as int),
        invariant
            text == s0.contents@,
            gm == named_values(old(globals)@),
            genv == types_env(gm),
            body == simple_body(text, q, Seq::empty(), genv, false, depth as int),
            body is Some ==> body == Some(cl) && globals@ == old(globals)@,
            err_q == simple_error_at(text, q, Seq::empty(), genv, false, Some('}'), depth as int),
            err_q is Some ==> globals@ == old(globals)@,
            fields_prefix(text, s0.file, Some('}'), depth, ps, pss, gsv, incv, pars),
            ps[0] == q && pss[0] == Seq::<Pair>::empty() && pars[0] is None && gsv[0] == old(globals)@ && incv[0]
                == *old(included),
            pss[ps.len() - 1] == obj_pairs@ && pars[ps.len() - 1] == parent && gsv[ps.len() - 1] == globals@
                && incv[ps.len() - 1] == *included,
            q == skip_ws_end(s0.contents@, s0.pos + 1, false),
            q < s0.contents@.len(),
            first ==> obj_pairs@.len() == 0 && parent is None,
            !first ==> s0.contents@[q] != '}' && !spec_is_end_delimiter(s0.contents@[q]),
            s0 == *old(stream),
            advanced(s0, *stream),
            stream.pos > s0.pos,
            depth <= MAX_DEPTH,
            inc0 == *old(included),
            inc0.same_frame(included),
            inc0.current_inactive(),
            included.values_wf(),
            globals_wf(globals@),
            obj_in_progress(obj_pairs@, seen_fields@, parent),
        ensures
            err_q is None,
            stream.pos == ps[ps.len() - 1] + 1 && text[ps[ps.len() - 1]] == '}',
            first ==> stream.pos == q + 1 && s0.contents@[q] == '}' && obj_pairs@.len() == 0 && parent is None,
            body is Some ==> stream.pos == cl + 1 && body_fields_ok(
                text,
                q,
                0,
                ObjModel { pairs: pairs_model(obj_pairs@), parent: parent_model(parent), token: 0 },
                false,
                gm,
                depth as int,
            ),
        decreases stream.contents@.len() - stream.pos,
    {
        let ghost pos0 = stream.pos as int;
        let ghost pairs0 = obj_pairs@;
        let ghost par0 = parent;
        proof {
            if let FieldScan::Name(n, fe) = scan_field(text, pos0) {
                let qq = skip_ws_end(text, fe, false);
                if 0 <= qq < text.len() {
                    lemma_var_type(var_scan(text, qq).0, text[qq] == '@', pairs_model(pairs0), gm);
                }
            }
        }
        let more = match parse_field_value_pair(
            stream,
            &mut obj_pairs,
            &mut seen_fields,
            globals,
            included,
            &mut parent,
            depth,
            Some('}'),
        ) {
            Ok(m) => m,
            Err(e) => {
                proof {
                    reveal_with_fuel(simple_error_at, 2);
                    let pm0 = pairs_model(pairs0);
                    if err_q is Some && simple_field(text, pos0, types_env(pm0), genv, Some('}'), depth as int) is Some {
                        let (n, qq, e2) = simple_field(text, pos0, types_env(pm0), genv, Some('}'), depth as int)->0;
                        assert(skip_ws_end(text, e2, false) < text.len());
                    }
                }
                return Err(e);
            },
        };
        proof {
            if body is Some {
                let pm0 = pairs_model(pairs0);
                let pm1 = pairs_model(obj_pairs@);
                if text[pos0] == '}' {
                    let o = ObjModel { pairs: pm1, parent: parent_model(parent), token: 0 };
                    assert(pm1 == pm0);
                    assert(pm0.take(pairs0.len() as int) =~= pm0);
                    assert(obj_starts(o, pm0, parent_model(par0)));
                    assert(body_fields_ok(text, pos0, pairs0.len() as nat, o, par0 is Some, gm, depth as int));
                } else {
                    let (n, qq, e) = simple_field(text, pos0, types_env(pm0), genv, Some('}'), depth as int)->0;
                    if n == seq!['^'] {
                        assert(pm1 =~= pm0);
                        lemma_parent_obj(text, qq, pm0, gm, parent->0@, depth as int);
                    } else {
                        assert(pm1.drop_last() =~= pm0);
                    }
                    assert(field_step(
                        text,
                        pos0,
                        qq,
                        n,
                        pm0,
                        pm1,
                        gm,
                        gm,
                        parent_model(par0),
                        parent_model(parent),
                        depth as int,
                    ));
                    lemma_body_step(
                        text,
                        q,
                        pos0,
                        stream.pos as int,
                        pm0,
                        pm1,
                        gm,
                        parent_model(par0),
                        parent_model(parent),
                        depth as int,
                    );
                }
            }
        }
        proof {
            if err_q is Some {
                let pm0 = pairs_model(pairs0);
                let pm1 = pairs_model(obj_pairs@);
                assert(text[pos0] != '}');
                assert(simple_field(text, pos0, types_env(pm0), genv, Some('}'), depth as int) is Some);
                let (n, qq, e) = simple_field(text, pos0, types_env(pm0), genv, Some('}'), depth as int)->0;
                assert(skip_ws_end(text, e, false) < text.len()) by {
                    reveal_with_fuel(simple_error_at, 2);
                }
                assert(stream.pos == skip_ws_end(text, e, false));
                if n == seq!['^'] {
                    assert(pm1 =~= pm0);
                    lemma_parent_obj(text, qq, pm0, gm, parent->0@, depth as int);
                } else {
                    assert(pm1.drop_last() =~= pm0);
                }
                assert(field_step(
                    text,
                    pos0,
                    qq,
                    n,
                    pm0,
                    pm1,
                    gm,
                    gm,
                    parent_model(par0),
                    parent_model(parent),
                    depth as int,
                ));
                lemma_error_step(
                    text,
                    pos0,
                    stream.pos as int,
                    pm0,
                    pm1,
                    gm,
                    gm,
                    parent_model(par0),
                    parent_model(parent),
                    Some('}'),
                    depth as int,
                );
            }
        }
        proof {
            if text[pos0] != '}' {
                lemma_fields_chain_push(
                    text,
                    s0.file,
                    Some('}'),
                    depth,
                    ps,
                    pss,
                    gsv,
                    incv,
                    pars,
                    stream.pos as int,
                    obj_pairs@,
                    globals@,
                    *included,
                    parent,
                );
                ps = ps.push(stream.pos as int);
                pss = pss.push(obj_pairs@);
                gsv = gsv.push(globals@);
                incv = incv.push(*included);
                pars = pars.push(parent);
            }
        }
        if !more {
            break;
        }
        proof {
            first = false;
        }
    }

    let ghost (gp, gs, gpar) = (obj_pairs@, seen_fields@, parent);
    proof {
        assert(fields_chain(text, s0.file, Some('}'), depth, ps, pss, gsv, incv, pars));
        assert(fields_choice(ps, pss, gsv, incv, pars));
    }
    let obj = Obj::from_pairs_unchecked(obj_pairs, parent);
    proof {
        lemma_obj_wf(gp, gs, gpar, obj@);
        if first {
            assert(obj@.pairs =~= Seq::empty());
        }
        assert(obj@.pairs =~= pairs_model(gp));
    }
    Ok(Value::Obj(obj))
}

/// The field at `p` named `n` can be added: no closing bracket, a name that is not reserved
/// nor starts with `^` but for the parent field `^` itself, and a name not given before: for a
/// global among the globals `genv`, for a regular field among the fields `env`, and for the
/// parent field unless `seen`.
pub open spec fn new_field_ok(
    s: Seq<char>,
    p: int,
    n: Seq<char>,
    env: Seq<(Seq<char>, TypeModel)>,
    genv: Seq<(Seq<char>, TypeModel)>,
    seen: bool,
) -> bool {
    &&& 0 <= p < s.len()
    &&& !spec_is_end_delimiter(s[p])
    &&& !spec_is_reserved(n)
    &&& !(n.len() > 0 && n[0] == '^' && n != seq!['^'])
    &&& n == seq!['^'] ==> !seen
    &&& s[p] == '@' && n != seq!['^'] ==> !names_of_env(genv).contains(n)
    &&& s[p] != '@' && n != seq!['^'] ==> !names_of_env(env).contains(n)
}

/// A single variable without a dot, and no operator after it, starts at `q`.
pub open spec fn lone_variable(s: Seq<char>, q: int) -> bool {
    &&& 0 <= q < s.len()
    &&& starts_variable(s[q])
    &&& atom_end(s, q) matches Some(e) && !(e < s.len() && spec_is_op(s[e]))
}

/// Where, after simple fields from `i` on (see `simple_field`; inside the bracket `cur_brace`, if
/// any, at nesting depth `d`), a new field stands whose value is a single variable that names
/// nothing: the start of that variable.
pub open spec fn simple_error_at(
    s: Seq<char>,
    i: int,
    env: Seq<(Seq<char>, TypeModel)>,
    genv: Seq<(Seq<char>, TypeModel)>,
    seen: bool,
    cur_brace: Option<char>,
    d: int,
) -> Option<int>
    decreases s.len() - i,
{
    if i < 0 || i >= s.len() {
        None
    } else {
        match simple_field(s, i, env, genv, cur_brace, d) {
            Some((n, q, e)) => {
                let next = skip_ws_end(s, e, false);
                if i < next <= s.len() && !(n == seq!['^'] && seen) {
                    let t = simple_type(s, q, env, genv, d);
                    if n == seq!['^'] {
                        simple_error_at(s, next, env, genv, true, cur_brace, d)
                    } else if s[i] == '@' {
                        simple_error_at(s, next, env, genv.push((n, t)), seen, cur_brace, d)
                    } else {
                        simple_error_at(s, next, env.push((n, t)), genv, seen, cur_brace, d)
                    }
                } else {
                    None
                }
            },
            None => match scan_field(s, i) {
                FieldScan::Name(n, fe) => {
                    let q = skip_ws_end(s, fe, false);
                    if new_field_ok(s, i, n, env, genv, seen) && i < q < s.len() && lone_variable(s, q) && var_type(
                        var_scan(s, q).0,
                        s[q] == '@',
                        env,
                        genv,
                    ) is None {
                        Some(q)
                    } else {
                        None
                    }
                },
                _ => None,
            },
        }
    }
}

/// The parent field `^` stands at `p`, and its value is a simple value (see `simple_end`) of
/// another type than an object.
pub open spec fn parent_mismatch_at(
    s: Seq<char>,
    p: int,
    env: Seq<(Seq<char>, TypeModel)>,
    genv: Seq<(Seq<char>, TypeModel)>,
    cur_brace: Option<char>,
    d: int,
) -> bool {
    match scan_field(s, p) {
        FieldScan::Name(n, fe) => {
            let q = skip_ws_end(s, fe, false);
            &&& n == seq!['^'] && !spec_is_reserved(n) && 0 <= p < q < s.len() && s[p] != '@'
            &&& !(s[p] == '}' && cur_brace is Some)
            &&& simple_end(s, q, env, genv, d) matches Some(e) && value_end_ok(char_at(s, e), cur_brace)
            &&& starts_variable(s[q]) ==> var_type(var_scan(s, q).0, s[q] == '@', env, genv) is Some
            &&& simple_type(s, q, env, genv, d) != TypeModel::Obj
        },
        _ => false,
    }
}

/// `x` is what reading the value of the field at `p` may give (see `value_read`), with the
/// fields `pairs`, the globals `globals0` and the include state `inc0` before it.
pub open spec fn field_value_read(
    s: Seq<char>,
    p: int,
    file: Option<String>,
    pairs: Seq<Pair>,
    globals0: Seq<(String, Value)>,
    inc0: Included,
    depth: usize,
    cur_brace: Option<char>,
    x: Value,
) -> bool {
    match scan_field(s, p) {
        FieldScan::Name(_, fe) => {
            let q = skip_ws_end(s, fe, false);
            exists|g1: Seq<(String, Value)>, i1: Included, end: int|
                #[trigger] value_read(
                    s,
                    q,
                    file,
                    pairs,
                    globals0,
                    g1,
                    inc0,
                    i1,
                    line_col(s, q as nat).0 as usize,
                    line_col(s, q as nat).1 as usize,
                    depth,
                    cur_brace,
                    true,
                    Ok(x),
                    end,
                )
        },
        _ => false,
    }
}

/// Reading the field at `p` and its value (see `value_read`), inside the bracket `cur_brace` if
/// any, takes the pairs, globals, include state and parent from `pairs0`, `g0`, `inc0`, `par0`
/// to `pairs1`, `g1`, `inc1`, `par1`, and the next field starts past whitespace at `next`: a
/// regular field is added to the pairs with the value read, a global to the globals, and the
/// parent field sets the parent to the object read.
pub open spec fn field_step_read(
    s: Seq<char>,
    p: int,
    file: Option<String>,
    cur_brace: Option<char>,
    depth: usize,
    pairs0: Seq<Pair>,
    pairs1: Seq<Pair>,
    g0: Seq<(String, Value)>,
    g1: Seq<(String, Value)>,
    inc0: Included,
    inc1: Included,
    par0: Option<Obj>,
    par1: Option<Obj>,
    next: int,
) -> bool
    decreases s.len() - p, 1int,
{
    match scan_field(s, p) {
        FieldScan::Name(n, fe) => {
            let q = skip_ws_end(s, fe, false);
            &&& 0 <= p < q <= s.len()
            &&& exists|gv: Seq<(String, Value)>, x: Value, end: int|
                #[trigger] step_choice(gv, x, end) && value_read(
                    s,
                    q,
                    file,
                    pairs0,
                    g0,
                    gv,
                    inc0,
                    inc1,
                    line_col(s, q as nat).0 as usize,
                    line_col(s, q as nat).1 as usize,
                    depth,
                    cur_brace,
                    true,
                    Ok(x),
                    end,
                ) && next == skip_ws_end(s, end, false) && if n == seq!['^'] {
                    &&& pairs1 == pairs0 && g1 == gv
                    &&& par1 matches Some(o) && x@ == ValueModel::Obj(o@)
                } else if s[p] == '@' {
                    &&& pairs1 == pairs0 && par1 == par0
                    &&& exists|i: int| 0 <= i < g1.len() && (#[trigger] g1[i]).0@ == n && g1[i].1 == x
                } else {
                    &&& pairs1.len() == pairs0.len() + 1 && pairs1.drop_last() == pairs0
                    &&& pairs1.last().0@ == n && pairs1.last().1 == x
                    &&& g1 == gv && par1 == par0
                }
        },
        _ => false,
    }
}

/// A choice of the globals and include state after a value, the value and where its reading
/// stopped; it names the choice so that proofs can point at it.
pub open spec fn value_choice(gv: Seq<(String, Value)>, iv: Included, x: Value, end: int) -> bool {
    true
}

/// A choice of the globals and include state after a value that could not be read, and where
/// its reading stopped; it names the choice so that proofs can point at it.
pub open spec fn failed_choice(gv: Seq<(String, Value)>, iv: Included, end: int) -> bool {
    true
}

/// The parent field at `p`: either its value was read as `x` (see `value_read`), and if `x` is
/// not an object the result is the type mismatch at the value's position; or reading the value
/// failed, and `r` is that failure.
pub open spec fn parent_value_ok(
    s: Seq<char>,
    p: int,
    file: Option<String>,
    cur_brace: Option<char>,
    depth: usize,
    pairs0: Seq<Pair>,
    g0: Seq<(String, Value)>,
    inc0: Included,
    r: Result<bool, ParseError>,
) -> bool {
    match scan_field(s, p) {
        FieldScan::Name(_, fe) => {
            let q = skip_ws_end(s, fe, false);
            let (l, c) = (line_col(s, q as nat).0 as usize, line_col(s, q as nat).1 as usize);
            ||| exists|gv: Seq<(String, Value)>, iv: Included, x: Value, end: int|
                #[trigger] value_choice(gv, iv, x, end) && value_read(
                    s,
                    q,
                    file,
                    pairs0,
                    g0,
                    gv,
                    inc0,
                    iv,
                    l,
                    c,
                    depth,
                    cur_brace,
                    true,
                    Ok(x),
                    end,
                ) && (!(x@ is Obj) ==> (r matches Err(e) && e.file == file && (e.kind matches ParseErrorKind::Over(
                    oe,
                    l2,
                    c2,
                ) && oe is TypeMismatch && oe->TypeMismatch_0@ == TypeModel::Obj && oe->TypeMismatch_1@
                    == model_type_of(x@) && l2 == l && c2 == c)))
            ||| r matches Err(e) && exists|gv: Seq<(String, Value)>, iv: Included, end: int|
                #[trigger] failed_choice(gv, iv, end) && value_read(
                    s,
                    q,
                    file,
                    pairs0,
                    g0,
                    gv,
                    inc0,
                    iv,
                    l,
                    c,
                    depth,
                    cur_brace,
                    true,
                    Err(e),
                    end,
                )
        },
        _ => false,
    }
}

/// What reading a field and its value at `p` does, as far as the field decides it: a `}`
/// closes the object when one is open; another closing bracket, a bad field name, or a name
/// already given in this object (or, for a global, anywhere before) is an error. Otherwise a
/// regular field is added to the pairs, a global to the globals, and a parent set.
pub open spec fn fvp_result_ok(
    s: Seq<char>,
    p: int,
    file: Option<String>,
    cur_brace: Option<char>,
    pairs0: Seq<Pair>,
    pairs1: Seq<Pair>,
    seen0: Seq<String>,
    seen1: Seq<String>,
    globals0: Seq<(Seq<char>, ValueModel)>,
    globals1: Seq<(Seq<char>, ValueModel)>,
    parent0: Option<Obj>,
    parent1: Option<Obj>,
    r: Result<bool, ParseError>,
) -> bool {
    let c = s[p];
    let (fl, fc) = (line_col(s, p as nat).0 as usize, line_col(s, p as nat).1 as usize);
    if c == '}' && cur_brace is Some {
        r matches Ok(false) && pairs1 == pairs0 && seen1 == seen0 && globals1 == globals0 && parent1 == parent0
    } else if spec_is_end_delimiter(c) {
        r matches Err(e) && e.file == file && e.kind == ParseErrorKind::InvalidClosingBracket(cur_brace, c, fl, fc)
    } else {
        match scan_field(s, p) {
            FieldScan::BadChar(ch, k) => r matches Err(e) && e.file == file && e.kind == ParseErrorKind::InvalidFieldChar(
                ch,
                char_pos(s, k).0 as usize,
                char_pos(s, k).1 as usize,
            ),
            FieldScan::Name(n, _) => if spec_is_reserved(n) || (n != seq!['^'] && n.len() > 0 && n[0] == '^') {
                r matches Err(e) && e.file == file && (e.kind matches ParseErrorKind::InvalidFieldName(f, l, k) && f@ == n
                    && l == fl && k == fc)
            } else if n == seq!['^'] {
                &&& parent0 is Some ==> (r matches Err(e) && e.file == file && (e.kind matches ParseErrorKind::DuplicateField(
                    f,
                    l,
                    k,
                ) && f@ == n && l == fl && k == fc) && pairs1 == pairs0 && seen1 == seen0 && globals1 == globals0
                    && parent1 == parent0)
                &&& r is Ok ==> pairs1 == pairs0 && seen1 == seen0 && parent1 is Some
            } else if c == '@' {
                &&& (exists|i: int| 0 <= i < globals0.len() && (#[trigger] globals0[i]).0 == n) ==> (r matches Err(e)
                    && e.file == file && (e.kind matches ParseErrorKind::DuplicateGlobal(f, l, k) && f@ == n && l == fl
                    && k == fc) && pairs1 == pairs0 && seen1 == seen0 && globals1 == globals0 && parent1 == parent0)
                &&& r is Ok ==> pairs1 == pairs0 && seen1 == seen0 && parent1 == parent0 && exists|i: int|
                    0 <= i < globals1.len() && (#[trigger] globals1[i]).0 == n
            } else {
                &&& (exists|i: int| 0 <= i < seen0.len() && (#[trigger] seen0[i])@ == n) ==> (r matches Err(e) && e.file
                    == file && (e.kind matches ParseErrorKind::DuplicateField(f, l, k) && f@ == n && l == fl && k == fc)
                    && pairs1 == pairs0 && seen1 == seen0 && globals1 == globals0 && parent1 == parent0)
                &&& r is Ok ==> pairs1.drop_last() == pairs0 && pairs1.len() == pairs0.len() + 1 && pairs1.last().0@ == n
                    && seen1 == seen0.push(pairs1.last().0) && parent1 == parent0
            },
        }
    }
}

// Parses a field/value pair.
#[verifier::rlimit(90)]
pub fn parse_field_value_pair(
    stream: &mut CharStream,
    obj_pairs: &mut Vec<Pair>,
    seen_fields: &mut Vec<String>,
    globals: &mut Vec<(String, Value)>,
    included: &mut Included,
    parent: &mut Option<Obj>,
    depth: usize,
    cur_brace: Option<char>,
) -> (r: Result<bool, ParseError>)
    requires
        old(stream).wf(),
        old(stream).pos < old(stream).contents@.len(),
        old(included).current_inactive(),
        depth <= MAX_DEPTH,
        obj_in_progress(old(obj_pairs)@, old(seen_fields)@, *old(parent)),
        globals_wf(old(globals)@),
        old(included).values_wf(),
    ensures
        advanced(*old(stream), *final(stream)),
        r is Ok ==> final(stream).pos > old(stream).pos,
        r matches Ok(true) ==> final(stream).pos < final(stream).contents@.len(),
        ({
            let s = old(stream).contents@;
            let p = old(stream).pos as int;
            match scan_field(s, p) {
                FieldScan::Name(n, fe) => {
                    n == seq!['^'] && !spec_is_reserved(n) && s[p] != '@' && *old(parent) is None && skip_ws_end(
                        s,
                        fe,
                        false,
                    ) < s.len() && !(s[p] == '}' && cur_brace is Some) ==> parent_value_ok(
                        s,
                        p,
                        old(stream).file,
                        cur_brace,
                        depth,
                        old(obj_pairs)@,
                        old(globals)@,
                        *old(included),
                        r,
                    )
                },
                _ => true,
            }
        }),
        r is Ok && !(old(stream).contents@[old(stream).pos as int] == '}' && cur_brace is Some) ==> field_step_read(
            old(stream).contents@,
            old(stream).pos as int,
            old(stream).file,
            cur_brace,
            depth,
            old(obj_pairs)@,
            final(obj_pairs)@,
            old(globals)@,
            final(globals)@,
            *old(included),
            *final(included),
            *old(parent),
            *final(parent),
            final(stream).pos as int,
        ),
        r is Ok ==> old(included).same_frame(final(included)),
        r is Ok ==> obj_in_progress(final(obj_pairs)@, final(seen_fields)@, *final(parent)),
        r is Ok ==> globals_wf(final(globals)@) && final(included).values_wf(),
        fvp_result_ok(
            old(stream).contents@,
            old(stream).pos as int,
            old(stream).file,
            cur_brace,
            old(obj_pairs)@,
            final(obj_pairs)@,
            old(seen_fields)@,
            final(seen_fields)@,
            named_values(old(globals)@),
            named_values(final(globals)@),
            *old(parent),
            *final(parent),
            r,
        ),
        ({
            let s = old(stream).contents@;
            let p = old(stream).pos as int;
            match scan_field(s, p) {
                FieldScan::Name(n, _) => r is Ok && !(s[p] == '}' && cur_brace is Some) ==> if n == seq!['^'] {
                    *final(parent) matches Some(o) && exists|x: Value| #[trigger] field_value_read(
                        s,
                        p,
                        old(stream).file,
                        old(obj_pairs)@,
                        old(globals)@,
                        *old(included),
                        depth,
                        cur_brace,
                        x,
                    ) && x@ == ValueModel::Obj(o@)
                } else if s[p] == '@' {
                    exists|i: int|
                        0 <= i < final(globals)@.len() && (#[trigger] final(globals)@[i]).0@ == n && field_value_read(
                        s,
                        p,
                        old(stream).file,
                        old(obj_pairs)@,
                        old(globals)@,
                        *old(included),
                        depth,
                        cur_brace,
                        final(globals)@[i].1,
                    )
                } else {
                    field_value_read(
                        s,
                        p,
                        old(stream).file,
                        old(obj_pairs)@,
                        old(globals)@,
                        *old(included),
                        depth,
                        cur_brace,
                        final(obj_pairs)@.last().1,
                    )
                },
                _ => true,
            }
        }),
        r matches Ok(false) && cur_brace is Some ==> old(stream).contents@[old(stream).pos as int] == '}'
            && final(stream).pos == old(stream).pos + 1 && final(globals)@ == old(globals)@
            && *final(included) == *old(included),
        ({
            let s = old(stream).contents@;
            let p = old(stream).pos as int;
            let pairs = pairs_model(old(obj_pairs)@);
            let gs = named_values(old(globals)@);
            match scan_field(s, p) {
                FieldScan::Name(n, fe) => {
                    let q = skip_ws_end(s, fe, false);
                    new_field_ok(s, p, n, types_env(pairs), types_env(gs), *old(parent) is Some) && !(s[p] == '}'
                        && cur_brace is Some) && p < q < s.len() && lone_variable(s, q) && var_base(
                        var_scan(s, q).0,
                        s[q] == '@',
                        pairs,
                        gs,
                    ) is None ==> (r matches Err(err) && var_error_ok(
                        var_scan(s, q).0,
                        s[q] == '@',
                        line_col(s, q as nat).0 as usize,
                        line_col(s, q as nat).1 as usize,
                        Err::<Value, ParseError>(err),
                    ) && err.file == old(stream).file)
                },
                _ => true,
            }
        }),
        ({
            let s = old(stream).contents@;
            let p = old(stream).pos as int;
            let env = types_env(pairs_model(old(obj_pairs)@));
            let genv = types_env(named_values(old(globals)@));
            match scan_field(s, p) {
                FieldScan::Name(n, fe) => {
                    let q = skip_ws_end(s, fe, false);
                    parent_mismatch_at(s, p, env, genv, cur_brace, depth as int) && *old(parent) is None ==> (
                    r matches Err(err) && err.file == old(stream).file && (err.kind matches ParseErrorKind::Over(
                        oe,
                        l,
                        c,
                    ) && oe is TypeMismatch && oe->TypeMismatch_0@ == TypeModel::Obj && oe->TypeMismatch_1@
                        == simple_type(s, q, env, genv, depth as int) && l == line_col(s, q as nat).0 && c == line_col(
                        s,
                        q as nat,
                    ).1))
                },
                _ => true,
            }
        }),
        ({
            let s = old(stream).contents@;
            let p = old(stream).pos as int;
            let pairs = pairs_model(old(obj_pairs)@);
            let gs = named_values(old(globals)@);
            match simple_field(s, p, types_env(pairs), types_env(gs), cur_brace, depth as int) {
                Some((n, q, e)) => !(n == seq!['^'] && *old(parent) is Some) ==> {
                    let next = skip_ws_end(s, e, false);
                    &&& cur_brace is None || next < s.len() ==> (r matches Ok(more) && more == (next < s.len())
                        && final(stream).pos == next)
                    &&& r is Ok ==> if n == seq!['^'] {
                        &&& *final(parent) matches Some(o) && simple_value_ok(
                            s,
                            q,
                            pairs,
                            gs,
                            ValueModel::Obj(o@),
                            depth as int,
                        )
                        &&& final(globals)@ == old(globals)@
                    } else if s[p] == '@' {
                        &&& named_values(final(globals)@).drop_last() == gs
                        &&& named_values(final(globals)@).len() == gs.len() + 1
                        &&& named_values(final(globals)@).last().0 == n
                        &&& simple_value_ok(s, q, pairs, gs, named_values(final(globals)@).last().1, depth as int)
                    } else {
                        &&& simple_value_ok(s, q, pairs, gs, final(obj_pairs)@.last().1@, depth as int)
                        &&& final(globals)@ == old(globals)@
                    }
                },
                None => true,
            }
        }),
    decreases old(included).fresh(), old(included).outside(), remaining(*old(stream)), 2nat,
{
    // Check if we're at an end delimiter instead of a field.
    let peek = stream.peek().unwrap();
    if peek == '}' && cur_brace.is_some() {
        let _ = stream.next();
        return Ok(false);
    } else if is_end_delimiter(peek) {
        return error(stream, ParseErrorKind::InvalidClosingBracket(cur_brace, peek, stream.line(), stream.col()));
    }

    // Get the field line/col.
    let (field_line, field_col) = (stream.line(), stream.col());

    // Parse field.
    let (field_name, field_type) = parse_field(stream, field_line, field_col)?;
    proof {
        lemma_scan_field_advances(old(stream).contents@, old(stream).pos as int);
    }

    // Check for errors.
    match field_type {
        FieldType::Global => {
            if get_global(globals, field_name.as_str()).is_some() {
                proof {
                    let k = choose|i: int| 0 <= i < globals@.len() && (#[trigger] globals@[i]).0@ == field_name@;
                    assert(names_of_env(types_env(named_values(globals@)))[k] == field_name@);
                }
                return error(stream, ParseErrorKind::DuplicateGlobal(field_name, field_line, field_col));
            }
        },
        FieldType::Parent => {
            if parent.is_some() {
                let caret = "^".to_string();
                proof {
                    reveal_strlit("^");
                    assert(caret@ =~= seq!['^']);
                }
                return error(stream, ParseErrorKind::DuplicateField(caret, field_line, field_col));
            }
        },
        FieldType::Regular => {
            if contains_name(seen_fields, field_name.as_str()) {
                proof {
                    let k = choose|k: int| 0 <= k < seen_fields@.len() && (#[trigger] seen_fields@[k])@ == field_name@;
                    assert(names_of_env(types_env(pairs_model(obj_pairs@)))[k] == field_name@);
                }
                return error(stream, ParseErrorKind::DuplicateField(field_name, field_line, field_col));
            }
            proof {
                lemma_regular_name(old(stream).contents@, old(stream).pos as int, field_name@);
            }
        },
    }

    // Deal with extra whitespace between field and value.
    if !stream.skip_whitespace() {
        return error(stream, ParseErrorKind::UnexpectedEnd(stream.line()));
    }

    // At a non-whitespace character, parse value.
    let (value_line, value_col) = (stream.line(), stream.col());
    let ghost q = stream.pos as int;
    let ghost gm0 = named_values(globals@);
    proof {
        let s = stream.contents@;
        lemma_simple_value_start(s, q, obj_pairs@, gm0);
        lemma_var_type(var_scan(s, q).0, s[q] == '@', pairs_model(obj_pairs@), gm0);
    }
    let value = match parse_value(
        stream,
        obj_pairs,
        globals,
        included,
        value_line,
        value_col,
        depth,
        cur_brace,
        true,
    ) {
        Ok(v) => v,
        Err(e) => {
            proof {
                assert(failed_choice(globals@, *included, stream.pos as int));
            }
            return Err(e);
        },
    };
    let ghost gv = globals@;
    let ghost vend = stream.pos as int;
    let ghost xv = value;
    let ghost iv = *included;
    proof {
        let s = old(stream).contents@;
        assert(value_choice(gv, iv, xv, vend));
        assert(value_read(
            s,
            q,
            old(stream).file,
            old(obj_pairs)@,
            old(globals)@,
            globals@,
            *old(included),
            *included,
            line_col(s, q as nat).0 as usize,
            line_col(s, q as nat).1 as usize,
            depth,
            cur_brace,
            true,
            Ok(value),
            stream.pos as int,
        ));
        assert(value_read(
            s,
            q,
            old(stream).file,
            old(obj_pairs)@,
            old(globals)@,
            gv,
            *old(included),
            *included,
            line_col(s, q as nat).0 as usize,
            line_col(s, q as nat).1 as usize,
            depth,
            cur_brace,
            true,
            Ok(xv),
            vend,
        ));
        assert(field_value_read(
            s,
            old(stream).pos as int,
            old(stream).file,
            old(obj_pairs)@,
            old(globals)@,
            *old(included),
            depth,
            cur_brace,
            value,
        ));
    }
    proof {
        let s = old(stream).contents@;
        let pm = pairs_model(obj_pairs@);
        if simple_field(s, old(stream).pos as int, types_env(pm), types_env(gm0), cur_brace, depth as int) is Some
            || parent_mismatch_at(s, old(stream).pos as int, types_env(pm), types_env(gm0), cur_brace, depth as int) {
            assert(simple_value_ok(s, q, pm, gm0, value@, depth as int));
            lemma_simple_type(s, q, pm, gm0, value@, depth as int);
        }
    }

    // Add value either to the globals map or to the current Obj.
    match field_type {
        FieldType::Global => {
            let ghost g0 = globals@;
            match global_index(globals, field_name.as_str()) {
                Some(i) => {
                    globals.set(i, (field_name, value));
                    proof {
                        assert(globals@[i as int].1 == xv);
                        assert(globals@[i as int].0@ == g0[i as int].0@);
                        assert(named_values(globals@)[i as int].0 == globals@[i as int].0@);
                        assert forall|a: int, b: int| 0 <= a < b < globals@.len() implies (#[trigger] globals@[a]).0@
                            != (#[trigger] globals@[b]).0@ by {
                            assert(globals@[a].0@ == g0[a].0@ && globals@[b].0@ == g0[b].0@);
                        }
                    }
                },
                None => {
                    globals.push((field_name, value));
                    proof {
                        assert(globals@[globals@.len() - 1].1 == xv);
                        assert(named_values(globals@).drop_last() =~= named_values(g0));
                        let last = (globals@.len() - 1) as int;
                        assert(named_values(globals@)[last].0 == globals@[last].0@);
                        assert forall|a: int, b: int| 0 <= a < b < globals@.len() implies (#[trigger] globals@[a]).0@
                            != (#[trigger] globals@[b]).0@ by {
                            if b < last {
                                assert(globals@[a] == g0[a] && globals@[b] == g0[b]);
                            } else {
                                assert(globals@[a] == g0[a]);
                            }
                        }
                    }
                },
            }
        },
        FieldType::Parent => {
            let par = match value.get_obj() {
                Ok(o) => o,
                Err(e) => return error(stream, ParseErrorKind::Over(e, value_line, value_col)),
            };
            *parent = Some(par);
        },
        FieldType::Regular => {
            let ghost (pairs0, seen0) = (obj_pairs@, seen_fields@);
            seen_fields.push(field_name.clone());
            obj_pairs.push(Pair(field_name, value));
            proof {
                assert forall|i: int| 0 <= i < pairs0.len() implies (#[trigger] pairs0[i]).0@ != obj_pairs@[pairs0.len() as int].0@ by {
                    assert(seen0[i]@ == pairs0[i].0@);
                }
                assert(obj_pairs@.drop_last() == pairs0);
            }
        },
    }

    // Go to the next non-whitespace character.
    if !stream.skip_whitespace() {
        match cur_brace {
            Some(_) => return error(stream, ParseErrorKind::UnexpectedEnd(stream.line())),
            None => {
                proof {
                    assert(step_choice(gv, xv, vend));
                    assert(field_step_read(
                        old(stream).contents@,
                        old(stream).pos as int,
                        old(stream).file,
                        cur_brace,
                        depth,
                        old(obj_pairs)@,
                        obj_pairs@,
                        old(globals)@,
                        globals@,
                        *old(included),
                        *included,
                        *old(parent),
                        *parent,
                        stream.pos as int,
                    ));
                }
                return Ok(false);
            },
        }
    }
    proof {
        assert(step_choice(gv, xv, vend));
        assert(field_step_read(
            old(stream).contents@,
            old(stream).pos as int,
            old(stream).file,
            cur_brace,
            depth,
            old(obj_pairs)@,
            obj_pairs@,
            old(globals)@,
            globals@,
            *old(included),
            *included,
            *old(parent),
            *parent,
            stream.pos as int,
        ));
    }
    Ok(true)
}

/// A field name read at `p` ends after `p`.
proof fn lemma_scan_field_advances(s: Seq<char>, p: int)
    requires
        0 <= p < s.len(),
    ensures
        scan_field(s, p) matches FieldScan::Name(_, end) ==> end > p,
{
    let g = s[p] == '@';
    let q = if g { p + 1 } else { p };
    if q < s.len() && spec_is_valid_field_char(s[q], true) {
        lemma_field_chars_end_bound(s, q + 1);
    }
}

/// A run of field characters ends at or after where it starts.
proof fn lemma_field_chars_end_bound(s: Seq<char>, i: int)
    requires
        0 <= i <= s.len(),
    ensures
        i <= field_chars_end(s, i) <= s.len(),
    decreases s.len() - i,
{
    if i < s.len() && is_field_run_char(s[i]) {
        lemma_field_chars_end_bound(s, i + 1);
    }
}

/// Adds an element of type `tnew` to elements whose types all refine to `tcur`: the new element
/// type, and whether it still mentions `Any`, or `None` if the new element does not fit.
fn next_elem_type(tcur: &Type, has_any: bool, tnew: &Type) -> (r: Option<(Type, bool)>)
    requires
        has_any == model_has_any(tcur@),
    ensures
        match r {
            Some((t, any)) => {
                &&& any == model_has_any(t@)
                &&& model_generalizes(tcur@, t@)
                &&& model_generalizes(tnew@, t@)
                &&& (!has_any ==> t@ == tcur@ && model_type_eq(tcur@, tnew@))
                &&& (has_any ==> model_most_specific(tcur@, tnew@) == Some((t@, any)))
            },
            None => if has_any {
                model_most_specific(tcur@, tnew@) is None
            } else {
                !model_type_eq(tcur@, tnew@)
            },
        },
{
    if has_any {
        match Type::most_specific(tcur, tnew) {
            Some((t, any)) => {
                proof {
                    lemma_most_specific_flag(tcur@, tnew@);
                    lemma_most_specific_generalized(tcur@, tnew@);
                }
                Some((t, any))
            },
            None => None,
        }
    } else if tcur.equals(tnew) {
        proof {
            lemma_eq_generalizes_specific(tcur@, tnew@);
            lemma_generalizes_reflexive(tcur@);
        }
        Some((tcur.copy(), false))
    } else {
        None
    }
}

/// Elements whose types all refine to `t` make a well-formed array of type `t`.
proof fn lemma_arr_wf(vs: Seq<Value>, t: TypeModel)
    requires
        forall|j: int| 0 <= j < vs.len() ==> wf_value((#[trigger] vs[j])@) && model_generalizes(model_type_of(vs[j]@), t),
    ensures
        wf_value(ValueModel::Arr(Value::models(vs), t)),
{
    let es = Value::models(vs);
    assert forall|j: int| 0 <= j < es.len() implies wf_value(#[trigger] es[j]) && model_generalizes(model_type_of(es[j]), t) by {
        assert(es[j] == vs[j]@);
    }
    lemma_wf_elems(es, t, es.len());
}

/// Well-formed values make a well-formed tuple.
proof fn lemma_tup_wf(vs: Seq<Value>)
    requires
        forall|j: int| 0 <= j < vs.len() ==> wf_value((#[trigger] vs[j])@),
    ensures
        wf_value(ValueModel::Tup(Value::models(vs))),
{
    let es = Value::models(vs);
    assert forall|j: int| 0 <= j < es.len() implies wf_value(#[trigger] es[j]) by {
        assert(es[j] == vs[j]@);
    }
    lemma_wf_values(es, es.len());
}

/// What opening a container at `p` gives, as far as the depth and the first character after
/// the opening bracket decide it: `MaxDepth` too deep; `UnexpectedEnd` at the end of the
/// input; the empty container at once before `close`; `InvalidClosingBracket` before another
/// closing bracket.
pub open spec fn container_start_ok(
    s: Seq<char>,
    p: int,
    file: Option<String>,
    depth: usize,
    close: char,
    empty: ValueModel,
    r: Result<Value, ParseError>,
    end: int,
) -> bool {
    let q = skip_ws_end(s, p + 1, false);
    if depth > MAX_DEPTH {
        r matches Err(e) && e.file == file && e.kind == ParseErrorKind::MaxDepth(
            line_col(s, p as nat).0 as usize,
            line_col(s, p as nat).1 as usize,
        )
    } else if q >= s.len() {
        r matches Err(e) && e.file == file && e.kind == ParseErrorKind::UnexpectedEnd(line_col(s, s.len()).0 as usize)
    } else if s[q] == close {
        r matches Ok(v) && v@ == empty && end == q + 1
    } else if spec_is_end_delimiter(s[q]) {
        r matches Err(e) && e.file == file && e.kind == ParseErrorKind::InvalidClosingBracket(
            Some(close),
            s[q],
            line_col(s, q as nat).0 as usize,
            line_col(s, q as nat).1 as usize,
        )
    } else {
        true
    }
}

/// A choice of values, starts, ends and states for `elems_chain`; it names the choice so that
/// proofs can point at it.
pub open spec fn chain_choice(
    xs: Seq<Value>,
    qs: Seq<int>,
    ends: Seq<int>,
    gs: Seq<Seq<(String, Value)>>,
    incs: Seq<Included>,
) -> bool {
    true
}

/// A choice of element values, closing position and states for `container_read`; it names the
/// choice so that proofs can point at it.
pub open spec fn container_choice(vs: Seq<ValueModel>, cl: int, g: Seq<(String, Value)>, i: Included) -> bool {
    true
}

/// The values `xs` were read one after the other from `i` on, up to the bracket `close`: each
/// starts past whitespace where the one before it ended (see `value_read`), `qs` are their
/// starts, `ends` where each reading stopped, and `gs`/`incs` the globals and include states
/// before and after each.
pub open spec fn elems_chain(
    s: Seq<char>,
    i: int,
    close: char,
    file: Option<String>,
    pairs: Seq<Pair>,
    depth: usize,
    xs: Seq<Value>,
    qs: Seq<int>,
    ends: Seq<int>,
    gs: Seq<Seq<(String, Value)>>,
    incs: Seq<Included>,
) -> bool
    decreases s.len() - i, 1int,
{
    let last = if xs.len() == 0 { i } else { ends[xs.len() - 1] };
    &&& qs.len() == xs.len() && ends.len() == xs.len() && gs.len() == xs.len() + 1 && incs.len() == xs.len() + 1
    &&& forall|k: int|
        0 <= k < xs.len() ==> #[trigger] qs[k] == skip_ws_end(s, if k == 0 { i } else { ends[k - 1] }, false) && i
            <= qs[k] < s.len()
    &&& forall|k: int|
        0 <= k < xs.len() && i <= qs[k] < s.len() ==> value_read(
            s,
            qs[k],
            file,
            pairs,
            gs[k],
            gs[k + 1],
            incs[k],
            incs[k + 1],
            line_col(s, qs[k] as nat).0 as usize,
            line_col(s, qs[k] as nat).1 as usize,
            depth,
            Some(close),
            true,
            Ok(#[trigger] xs[k]),
            ends[k],
        )
    &&& skip_ws_end(s, last, false) < s.len() && s[skip_ws_end(s, last, false)] == close
}

/// The values `vs` were read one after the other from `i` on, up to the bracket `close` at `cl`,
/// with the globals `g0` and the include state `inc0` before the first and `g1` and `inc1` after
/// the last (see `elems_chain`).
pub open spec fn elems_read(
    s: Seq<char>,
    i: int,
    close: char,
    file: Option<String>,
    pairs: Seq<Pair>,
    g0: Seq<(String, Value)>,
    g1: Seq<(String, Value)>,
    inc0: Included,
    inc1: Included,
    depth: usize,
    vs: Seq<ValueModel>,
    cl: int,
) -> bool
    decreases s.len() - i, 2int,
{
    exists|xs: Seq<Value>, qs: Seq<int>, ends: Seq<int>, gs: Seq<Seq<(String, Value)>>, incs: Seq<Included>|
        #[trigger] chain_choice(xs, qs, ends, gs, incs) && elems_chain(s, i, close, file, pairs, depth, xs, qs, ends, gs, incs)
            && Value::models(xs) == vs
            && gs[0] == g0 && incs[0] == inc0 && gs[xs.len() as int] == g1 && incs[xs.len() as int] == inc1 && cl
            == skip_ws_end(s, if xs.len() == 0 { i } else { ends[xs.len() - 1] }, false)
}

// Parses a sub-Arr in a file. It *must* start with [ and end with ].
#[verifier::rlimit(60)]
pub fn parse_arr(
    stream: &mut CharStream,
    obj_pairs: &Vec<Pair>,
    globals: &mut Vec<(String, Value)>,
    included: &mut Included,
    depth: usize,
) -> (r: Result<Value, ParseError>)
    requires
        old(stream).wf(),
        old(stream).peek_spec() == Some('['),
        old(included).current_inactive(),
        nested_depth_ok(*old(stream), depth),
        pair_values_wf(obj_pairs@),
        globals_wf(old(globals)@),
        old(included).values_wf(),
    ensures
        advanced(*old(stream), *final(stream)),
        r is Ok ==> final(stream).pos > old(stream).pos,
        r matches Ok(v) ==> v is Arr && wf_value(v@),
        r matches Ok(v) ==> v@ matches ValueModel::Arr(vs, t) && elems_type(TypeModel::Any, true, types_of(vs))
            == Some(t),
        r matches Ok(v) ==> v@ matches ValueModel::Arr(vs, _) && elems_read(
            old(stream).contents@,
            old(stream).pos + 1,
            ']',
            old(stream).file,
            obj_pairs@,
            old(globals)@,
            final(globals)@,
            *old(included),
            *final(included),
            depth,
            vs,
            final(stream).pos - 1,
        ),
        r is Ok ==> old(included).same_frame(final(included)),
        r is Ok ==> globals_wf(final(globals)@) && final(included).values_wf(),
        container_start_ok(
            old(stream).contents@,
            old(stream).pos as int,
            old(stream).file,
            depth,
            ']',
            ValueModel::Arr(Seq::empty(), TypeModel::Any),
            r,
            final(stream).pos as int,
        ),
        depth <= MAX_DEPTH ==> match simple_elems(
            old(stream).contents@,
            old(stream).pos + 1,
            ']',
            types_env(pairs_model(obj_pairs@)),
            types_env(named_values(old(globals)@)),
            depth as int,
        ) {
            Some((qs, c)) => match elems_type(
                TypeModel::Any,
                true,
                types_at(
                    old(stream).contents@,
                    old(stream).pos + 1,
                    ']',
                    types_env(pairs_model(obj_pairs@)),
                    types_env(named_values(old(globals)@)),
                    depth as int,
                ),
            ) {
                Some(t) => r matches Ok(v) && v@ matches ValueModel::Arr(vs, t2) && t2 == t && elems_values_ok(
                    old(stream).contents@,
                    qs,
                    pairs_model(obj_pairs@),
                    named_values(old(globals)@),
                    vs,
                    depth as int,
                ) && final(stream).pos == c + 1 && final(globals)@ == old(globals)@,
                None => r matches Err(e) && elems_mismatch(
                    TypeModel::Any,
                    true,
                    types_at(
                        old(stream).contents@,
                        old(stream).pos + 1,
                        ']',
                        types_env(pairs_model(obj_pairs@)),
                        types_env(named_values(old(globals)@)),
                        depth as int,
                    ),
                    0,
                ) matches Some((k, tc)) && (e.kind matches ParseErrorKind::ExpectedType(t1, t2, l, cl) && t1@ == tc
                    && t2@ == types_at(
                    old(stream).contents@,
                    old(stream).pos + 1,
                    ']',
                    types_env(pairs_model(obj_pairs@)),
                    types_env(named_values(old(globals)@)),
                    depth as int,
                )[k] && l == line_col(old(stream).contents@, qs[k] as nat).0 && cl == line_col(
                    old(stream).contents@,
                    qs[k] as nat,
                ).1),
            },
            None => true,
        },
    decreases old(included).fresh(), old(included).outside(), remaining(*old(stream)), 0nat,
{
    // Check depth.
    if depth > MAX_DEPTH {
        return error(stream, ParseErrorKind::MaxDepth(stream.line(), stream.col()));
    }

    // We must already be at a '['.
    let _ = stream.next();

    let mut vec: Vec<Value> = Vec::new();
    let mut tcur = Type::Any;
    let mut has_any = true;
    let ghost s0 = *old(stream);
    let ghost inc0 = *old(included);
    let ghost text = s0.contents@;
    let ghost pm = pairs_model(obj_pairs@);
    let ghost gm = named_values(globals@);
    let ghost env = types_env(pm);
    let ghost genv = types_env(gm);
    let ghost elems = simple_elems(text, s0.pos + 1, ']', env, genv, depth as int);
    let ghost qs: Seq<int> = match elems { Some(t) => t.0, None => Seq::empty() };
    let ghost cpos: int = match elems { Some(t) => t.1, None => 0 };
    let ghost tys = types_at(text, s0.pos + 1, ']', env, genv, depth as int);
    proof {
        assert(tys.subrange(0, tys.len() as int) =~= tys);
        if elems is Some {
            lemma_types_at(text, s0.pos + 1, ']', env, genv, depth as int);
        }
    }

    let ghost mut qv: Seq<int> = Seq::empty();
    let ghost mut ev: Seq<int> = Seq::empty();
    let ghost mut gsv: Seq<Seq<(String, Value)>> = seq![globals@];
    let ghost mut incv: Seq<Included> = seq![*included];

    loop
        invariant_except_break
            vec@.len() == 0 ==> stream.pos == s0.pos + 1,
            vec@.len() > 0 ==> stream.pos == ev[vec@.len() - 1],
            elems is Some ==> simple_elems(text, stream.pos as int, ']', env, genv, depth as int) == Some(
                (qs.subrange(vec@.len() as int, qs.len() as int), cpos),
            ),
        invariant
            s0 == *old(stream),
            text == s0.contents@,
            pm == pairs_model(obj_pairs@),
            qv.len() == vec@.len() && ev.len() == vec@.len() && gsv.len() == vec@.len() + 1 && incv.len()
                == vec@.len() + 1,
            gsv[0] == old(globals)@ && incv[0] == *old(included),
            gsv[vec@.len() as int] == globals@ && incv[vec@.len() as int] == *included,
            forall|k: int|
                0 <= k < vec@.len() ==> #[trigger] qv[k] == skip_ws_end(
                    text,
                    if k == 0 {
                        s0.pos + 1
                    } else {
                        ev[k - 1]
                    },
                    false,
                ) && s0.pos + 1 <= qv[k] < text.len(),
            forall|k: int|
                0 <= k < vec@.len() ==> value_read(
                    text,
                    qv[k],
                    s0.file,
                    obj_pairs@,
                    gsv[k],
                    gsv[k + 1],
                    incv[k],
                    incv[k + 1],
                    line_col(text, qv[k] as nat).0 as usize,
                    line_col(text, qv[k] as nat).1 as usize,
                    depth,
                    Some(']'),
                    true,
                    Ok(#[trigger] vec@[k]),
                    ev[k],
                ),
            gm == named_values(old(globals)@),
            env == types_env(pm),
            genv == types_env(gm),
            elems is Some ==> globals@ == old(globals)@,
            elems == simple_elems(text, s0.pos + 1, ']', env, genv, depth as int),
            tys == types_at(text, s0.pos + 1, ']', env, genv, depth as int),
            elems is Some ==> tys.len() == qs.len() && forall|k: int| 0 <= k < qs.len() ==> tys[k] == simple_type(
                text,
                #[trigger] qs[k],
                env,
                genv,
                depth as int,
            ),
            elems is Some ==> elems == Some((qs, cpos)) && vec@.len() <= qs.len(),
            elems is Some ==> forall|k: int| 0 <= k < vec@.len() ==> simple_value_ok(
                text,
                qs[k],
                pm,
                gm,
                (#[trigger] vec@[k])@,
                depth as int,
            ),
            elems is Some ==> elems_type(tcur@, has_any, tys.subrange(vec@.len() as int, tys.len() as int))
                == elems_type(TypeModel::Any, true, tys),
            elems is Some ==> elems_mismatch(tcur@, has_any, tys.subrange(vec@.len() as int, tys.len() as int), vec@.len() as int)
                == elems_mismatch(TypeModel::Any, true, tys, 0),
            advanced(s0, *stream),
            stream.pos > s0.pos,
            depth <= MAX_DEPTH,
            inc0 == *old(included),
            inc0.same_frame(included),
            inc0.current_inactive(),
            pair_values_wf(obj_pairs@),
            globals_wf(globals@),
            included.values_wf(),
            vec@.len() > 0 ==> skip_ws_end(s0.contents@, s0.pos + 1, false) < s0.contents@.len()
                && !spec_is_end_delimiter(s0.contents@[skip_ws_end(s0.contents@, s0.pos + 1, false)]),
            vec@.len() == 0 ==> tcur@ == TypeModel::Any,
            elems_state(TypeModel::Any, true, types_of(Value::models(vec@))) == Some((tcur@, has_any)),
            has_any == model_has_any(tcur@),
            forall|j: int| 0 <= j < vec@.len() ==> wf_value((#[trigger] vec@[j])@) && model_generalizes(model_type_of(vec@[j]@), tcur@),
        ensures
            ({
                let last = if vec@.len() == 0 {
                    s0.pos + 1
                } else {
                    ev[vec@.len() - 1]
                };
                stream.pos == skip_ws_end(text, last, false) + 1 && skip_ws_end(text, last, false) < text.len()
                    && text[skip_ws_end(text, last, false)] == ']'
            }),
            vec@.len() == 0 ==> stream.pos == skip_ws_end(s0.contents@, s0.pos + 1, false) + 1
                && s0.contents@[skip_ws_end(s0.contents@, s0.pos + 1, false)] == ']',
            elems is Some ==> vec@.len() == qs.len() && stream.pos == cpos + 1,
        decreases stream.contents@.len() - stream.pos,
    {
        let ghost pos0 = stream.pos as int;
        // Go to the first non-whitespace character, or error if there is none.
        if !stream.skip_whitespace() {
            return error(stream, ParseErrorKind::UnexpectedEnd(stream.line()));
        }
        proof {
            if elems is Some {
                lemma_simple_elems_at(text, pos0, ']', env, genv, depth as int);
            }
        }

        let peek = stream.peek().unwrap();
        if peek == ']' {
            let _ = stream.next();
            break;
        } else if is_end_delimiter(peek) {
            return error(stream, ParseErrorKind::InvalidClosingBracket(Some(']'), peek, stream.line(), stream.col()));
        }

        // At a non-whitespace character, parse value.
        let (value_line, value_col) = (stream.line(), stream.col());
        let ghost q = stream.pos as int;
        proof {
            if elems is Some {
                lemma_simple_value_start(text, q, obj_pairs@, gm);
                lemma_var_type(var_scan(text, q).0, text[q] == '@', pm, gm);
            }
        }
        let value = parse_value(
            stream,
            obj_pairs,
            globals,
            included,
            value_line,
            value_col,
            depth,
            Some(']'),
            true,
        )?;

        let tnew = value.get_type();
        let ghost k = vec@.len() as int;
        let ghost rest = tys.subrange(k, tys.len() as int);
        proof {
            if elems is Some {
                assert(qs.subrange(k, qs.len() as int)[0] == qs[k]);
                assert(simple_value_ok(text, qs[k], pm, gm, value@, depth as int));
                lemma_simple_type(text, q, pm, gm, value@, depth as int);
                assert(rest[0] == tnew@);
                assert(rest.drop_first() =~= tys.subrange(k + 1, tys.len() as int));
            }
        }
        match next_elem_type(&tcur, has_any, &tnew) {
            Some((t, any)) => {
                proof {
                    assert forall|j: int| 0 <= j < vec@.len() implies model_generalizes(model_type_of((#[trigger] vec@[j])@), t@) by {
                        lemma_generalizes_transitive(model_type_of(vec@[j]@), tcur@, t@);
                    }
                    if elems is Some {
                        assert(elems_type(tcur@, has_any, rest) == elems_type(t@, any, rest.drop_first()));
                        assert(elems_mismatch(tcur@, has_any, rest, k) == elems_mismatch(t@, any, rest.drop_first(), k + 1));
                    }
                }
                tcur = t;
                has_any = any;
            },
            None => {
                proof {
                    if elems is Some {
                        assert(elems_type(tcur@, has_any, rest) is None);
                        assert(elems_mismatch(tcur@, has_any, rest, k) == Some((k, tcur@)));
                        assert(q == qs[k]);
                    }
                }
                return error(stream, ParseErrorKind::ExpectedType(tcur, tnew, value_line, value_col));
            },
        }

        let ghost before = vec@;
        proof {
            lemma_elems_state_push(TypeModel::Any, true, types_of(Value::models(before)), tnew@);
            assert(types_of(Value::models(before.push(value))) =~= types_of(Value::models(before)).push(tnew@));
        }
        let ghost g_before = gsv;
        let ghost i_before = incv;
        let ghost q_before = qv;
        let ghost e_before = ev;
        vec.push(value);
        proof {
            qv = qv.push(q);
            ev = ev.push(stream.pos as int);
            gsv = gsv.push(globals@);
            incv = incv.push(*included);
            assert forall|j: int| 0 <= j < vec@.len() implies #[trigger] qv[j] == skip_ws_end(
                text,
                if j == 0 {
                    s0.pos + 1
                } else {
                    ev[j - 1]
                },
                false,
            ) && s0.pos + 1 <= qv[j] < text.len() by {
                if j < k {
                    assert(qv[j] == q_before[j]);
                    if j > 0 {
                        assert(ev[j - 1] == e_before[j - 1]);
                    }
                }
            }
            assert forall|j: int| 0 <= j < vec@.len() implies value_read(
                text,
                qv[j],
                s0.file,
                obj_pairs@,
                gsv[j],
                gsv[j + 1],
                incv[j],
                incv[j + 1],
                line_col(text, qv[j] as nat).0 as usize,
                line_col(text, qv[j] as nat).1 as usize,
                depth,
                Some(']'),
                true,
                Ok(#[trigger] vec@[j]),
                ev[j],
            ) by {
                if j < k {
                    assert(vec@[j] == before[j]);
                    assert(qv[j] == q_before[j] && ev[j] == e_before[j]);
                    assert(gsv[j] == g_before[j] && gsv[j + 1] == g_before[j + 1]);
                    assert(incv[j] == i_before[j] && incv[j + 1] == i_before[j + 1]);
                }
            }
            if elems is Some {
                assert(qs.subrange(k + 1, qs.len() as int) =~= qs.subrange(k, qs.len() as int).drop_first());
                assert forall|j: int| 0 <= j < vec@.len() implies simple_value_ok(
                    text,
                    qs[j],
                    pm,
                    gm,
                    (#[trigger] vec@[j])@,
                    depth as int,
                ) by {
                    if j < k {
                        assert(vec@[j] == before[j]);
                    }
                }
            }
        }
    }

    proof {
        if elems is Some {
            assert(tys.subrange(vec@.len() as int, tys.len() as int) =~= Seq::<TypeModel>::empty());
        }
    }

    proof {
        lemma_elems_state_type(TypeModel::Any, true, types_of(Value::models(vec@)));
        lemma_arr_wf(vec@, tcur@);
        assert(vec@.len() == 0 ==> Value::models(vec@) =~= Seq::empty());
    }
    proof {
        assert(elems_chain(text, s0.pos + 1, ']', s0.file, obj_pairs@, depth, vec@, qv, ev, gsv, incv));
        assert(chain_choice(vec@, qv, ev, gsv, incv));
        assert(elems_read(
            text,
            s0.pos + 1,
            ']',
            s0.file,
            obj_pairs@,
            old(globals)@,
            globals@,
            *old(included),
            *included,
            depth,
            Value::models(vec@),
            stream.pos - 1,
        ));
    }
    let arr = Arr::from_values_unchecked(vec, tcur);

    Ok(Value::Arr(arr))
}

// Parses a sub-Tup in a file. It *must* start with ( and end with ).
pub fn parse_tup(
    stream: &mut CharStream,
    obj_pairs: &Vec<Pair>,
    globals: &mut Vec<(String, Value)>,
    included: &mut Included,
    depth: usize,
) -> (r: Result<Value, ParseError>)
    requires
        old(stream).wf(),
        old(stream).peek_spec() == Some('('),
        old(included).current_inactive(),
        nested_depth_ok(*old(stream), depth),
        pair_values_wf(obj_pairs@),
        globals_wf(old(globals)@),
        old(included).values_wf(),
    ensures
        advanced(*old(stream), *final(stream)),
        r is Ok ==> final(stream).pos > old(stream).pos,
        r matches Ok(v) ==> v is Tup && wf_value(v@),
        r matches Ok(v) ==> v@ matches ValueModel::Tup(vs) && elems_read(
            old(stream).contents@,
            old(stream).pos + 1,
            ')',
            old(stream).file,
            obj_pairs@,
            old(globals)@,
            final(globals)@,
            *old(included),
            *final(included),
            depth,
            vs,
            final(stream).pos - 1,
        ),
        r is Ok ==> old(included).same_frame(final(included)),
        r is Ok ==> globals_wf(final(globals)@) && final(included).values_wf(),
        container_start_ok(
            old(stream).contents@,
            old(stream).pos as int,
            old(stream).file,
            depth,
            ')',
            ValueModel::Tup(Seq::empty()),
            r,
            final(stream).pos as int,
        ),
        depth <= MAX_DEPTH ==> match simple_elems(
            old(stream).contents@,
            old(stream).pos + 1,
            ')',
            types_env(pairs_model(obj_pairs@)),
            types_env(named_values(old(globals)@)),
            depth as int,
        ) {
            Some((qs, c)) => r matches Ok(v) && v@ matches ValueModel::Tup(vs) && elems_values_ok(
                old(stream).contents@,
                qs,
                pairs_model(obj_pairs@),
                named_values(old(globals)@),
                vs,
                depth as int,
            ) && final(stream).pos == c + 1 && final(globals)@ == old(globals)@,
            None => true,
        },
    decreases old(included).fresh(), old(included).outside(), remaining(*old(stream)), 0nat,
{
    // Check depth.
    if depth > MAX_DEPTH {
        return error(stream, ParseErrorKind::MaxDepth(stream.line(), stream.col()));
    }

    // We must already be at a '('.
    let _ = stream.next();

    let mut vec: Vec<Value> = Vec::new();
    let ghost s0 = *old(stream);
    let ghost inc0 = *old(included);
    let ghost text = s0.contents@;
    let ghost pm = pairs_model(obj_pairs@);
    let ghost gm = named_values(globals@);
    let ghost env = types_env(pm);
    let ghost genv = types_env(gm);
    let ghost elems = simple_elems(text, s0.pos + 1, ')', env, genv, depth as int);
    let ghost qs: Seq<int> = match elems { Some(t) => t.0, None => Seq::empty() };
    let ghost cpos: int = match elems { Some(t) => t.1, None => 0 };

    let ghost mut qv: Seq<int> = Seq::empty();
    let ghost mut ev: Seq<int> = Seq::empty();
    let ghost mut gsv: Seq<Seq<(String, Value)>> = seq![globals@];
    let ghost mut incv: Seq<Included> = seq![*included];

    loop
        invariant_except_break
            vec@.len() == 0 ==> stream.pos == s0.pos + 1,
            vec@.len() > 0 ==> stream.pos == ev[vec@.len() - 1],
            elems is Some ==> simple_elems(text, stream.pos as int, ')', env, genv, depth as int) == Some(
                (qs.subrange(vec@.len() as int, qs.len() as int), cpos),
            ),
        invariant
            s0 == *old(stream),
            text == s0.contents@,
            pm == pairs_model(obj_pairs@),
            qv.len() == vec@.len() && ev.len() == vec@.len() && gsv.len() == vec@.len() + 1 && incv.len()
                == vec@.len() + 1,
            gsv[0] == old(globals)@ && incv[0] == *old(included),
            gsv[vec@.len() as int] == globals@ && incv[vec@.len() as int] == *included,
            forall|k: int|
                0 <= k < vec@.len() ==> #[trigger] qv[k] == skip_ws_end(
                    text,
                    if k == 0 {
                        s0.pos + 1
                    } else {
                        ev[k - 1]
                    },
                    false,
                ) && s0.pos + 1 <= qv[k] < text.len(),
            forall|k: int|
                0 <= k < vec@.len() ==> value_read(
                    text,
                    qv[k],
                    s0.file,
                    obj_pairs@,
                    gsv[k],
                    gsv[k + 1],
                    incv[k],
                    incv[k + 1],
                    line_col(text, qv[k] as nat).0 as usize,
                    line_col(text, qv[k] as nat).1 as usize,
                    depth,
                    Some(')'),
                    true,
                    Ok(#[trigger] vec@[k]),
                    ev[k],
                ),
            gm == named_values(old(globals)@),
            env == types_env(pm),
            genv == types_env(gm),
            elems is Some ==> globals@ == old(globals)@,
            elems == simple_elems(text, s0.pos + 1, ')', env, genv, depth as int),
            elems is Some ==> elems == Some((qs, cpos)) && vec@.len() <= qs.len(),
            elems is Some ==> forall|k: int| 0 <= k < vec@.len() ==> simple_value_ok(
                text,
                qs[k],
                pm,
                gm,
                (#[trigger] vec@[k])@,
                depth as int,
            ),
            advanced(s0, *stream),
            stream.pos > s0.pos,
            depth <= MAX_DEPTH,
            inc0 == *old(included),
            inc0.same_frame(included),
            inc0.current_inactive(),
            pair_values_wf(obj_pairs@),
            globals_wf(globals@),
            included.values_wf(),
            vec@.len() > 0 ==> skip_ws_end(s0.contents@, s0.pos + 1, false) < s0.contents@.len()
                && !spec_is_end_delimiter(s0.contents@[skip_ws_end(s0.contents@, s0.pos + 1, false)]),
            forall|j: int| 0 <= j < vec@.len() ==> wf_value((#[trigger] vec@[j])@),
        ensures
            ({
                let last = if vec@.len() == 0 {
                    s0.pos + 1
                } else {
                    ev[vec@.len() - 1]
                };
                stream.pos == skip_ws_end(text, last, false) + 1 && skip_ws_end(text, last, false) < text.len()
                    && text[skip_ws_end(text, last, false)] == ')'
            }),
            vec@.len() == 0 ==> stream.pos == skip_ws_end(s0.contents@, s0.pos + 1, false) + 1
                && s0.contents@[skip_ws_end(s0.contents@, s0.pos + 1, false)] == ')',
            elems is Some ==> vec@.len() == qs.len() && stream.pos == cpos + 1,
        decreases stream.contents@.len() - stream.pos,
    {
        let ghost pos0 = stream.pos as int;
        // Go to the first non-whitespace character, or error if there is none.
        if !stream.skip_whitespace() {
            return error(stream, ParseErrorKind::UnexpectedEnd(stream.line()));
        }
        proof {
            if elems is Some {
                lemma_simple_elems_at(text, pos0, ')', env, genv, depth as int);
            }
        }

        let peek = stream.peek().unwrap();
        if peek == ')' {
            let _ = stream.next();
            break;
        } else if is_end_delimiter(peek) {
            return error(stream, ParseErrorKind::InvalidClosingBracket(Some(')'), peek, stream.line(), stream.col()));
        }

        // At a non-whitespace character, parse value.
        let (value_line, value_col) = (stream.line(), stream.col());
        proof {
            if elems is Some {
                let q = stream.pos as int;
                lemma_simple_value_start(text, q, obj_pairs@, gm);
                lemma_var_type(var_scan(text, q).0, text[q] == '@', pm, gm);
            }
        }
        let ghost q = stream.pos as int;
        let value = parse_value(
            stream,
            obj_pairs,
            globals,
            included,
            value_line,
            value_col,
            depth,
            Some(')'),
            true,
        )?;

        let ghost before = vec@;
        let ghost k = vec@.len() as int;
        let ghost g_before = gsv;
        let ghost i_before = incv;
        let ghost q_before = qv;
        let ghost e_before = ev;
        vec.push(value);
        proof {
            qv = qv.push(q);
            ev = ev.push(stream.pos as int);
            gsv = gsv.push(globals@);
            incv = incv.push(*included);
            assert forall|j: int| 0 <= j < vec@.len() implies #[trigger] qv[j] == skip_ws_end(
                text,
                if j == 0 {
                    s0.pos + 1
                } else {
                    ev[j - 1]
                },
                false,
            ) && s0.pos + 1 <= qv[j] < text.len() by {
                if j < k {
                    assert(qv[j] == q_before[j]);
                    if j > 0 {
                        assert(ev[j - 1] == e_before[j - 1]);
                    }
                }
            }
            assert forall|j: int| 0 <= j < vec@.len() implies value_read(
                text,
                qv[j],
                s0.file,
                obj_pairs@,
                gsv[j],
                gsv[j + 1],
                incv[j],
                incv[j + 1],
                line_col(text, qv[j] as nat).0 as usize,
                line_col(text, qv[j] as nat).1 as usize,
                depth,
                Some(')'),
                true,
                Ok(#[trigger] vec@[j]),
                ev[j],
            ) by {
                if j < k {
                    assert(vec@[j] == before[j]);
                    assert(qv[j] == q_before[j] && ev[j] == e_before[j]);
                    assert(gsv[j] == g_before[j] && gsv[j + 1] == g_before[j + 1]);
                    assert(incv[j] == i_before[j] && incv[j + 1] == i_before[j + 1]);
                }
            }
            if elems is Some {
                let k = before.len() as int;
                assert(qs.subrange(k, qs.len() as int)[0] == qs[k]);
                assert(qs.subrange(k + 1, qs.len() as int) =~= qs.subrange(k, qs.len() as int).drop_first());
                assert forall|j: int| 0 <= j < vec@.len() implies simple_value_ok(
                    text,
                    qs[j],
                    pm,
                    gm,
                    (#[trigger] vec@[j])@,
                    depth as int,
                ) by {
                    if j < k {
                        assert(vec@[j] == before[j]);
                    }
                }
            }
        }
    }

    proof {
        lemma_tup_wf(vec@);
        assert(vec@.len() == 0 ==> Value::models(vec@) =~= Seq::empty());
    }
    proof {
        assert(elems_chain(text, s0.pos + 1, ')', s0.file, obj_pairs@, depth, vec@, qv, ev, gsv, incv));
        assert(chain_choice(vec@, qv, ev, gsv, incv));
        assert(elems_read(
            text,
            s0.pos + 1,
            ')',
            s0.file,
            obj_pairs@,
            old(globals)@,
            globals@,
            *old(included),
            *included,
            depth,
            Value::models(vec@),
            stream.pos - 1,
        ));
    }
    let tup = Tup::from_values(vec);

    Ok(Value::Tup(tup))
}

/// What an array, tuple or object read at `p` gives (see `elems_read` and `obj_fields_read`),
/// unless an operator follows it
/// and it starts a chain: `v` is the value, `end` where the reading stopped, `globals0`/`inc0`
/// the globals and include state before it and `globals1`/`inc1` after it.
pub open spec fn container_read(
    s: Seq<char>,
    p: int,
    file: Option<String>,
    obj_pairs: Seq<Pair>,
    globals0: Seq<(String, Value)>,
    globals1: Seq<(String, Value)>,
    inc0: Included,
    inc1: Included,
    depth: usize,
    is_first: bool,
    v: Value,
    end: int,
) -> bool
    decreases s.len() - (p + 1), 4int,
{
    if s[p] == '{' {
        let q = skip_ws_end(s, p + 1, false);
        &&& p + 1 <= q <= s.len()
        &&& exists|o: ObjModel, cl: int, g: Seq<(String, Value)>, i: Included|
            #[trigger] obj_choice(o, cl, g, i) && obj_fields_read(
                s,
                q,
                file,
                Some('}'),
                (depth + 1) as usize,
                globals0,
                g,
                inc0,
                i,
                o,
                cl,
            ) && (!is_first || !(cl + 1 < s.len() && spec_is_op(s[cl + 1])) ==> (v@ == ValueModel::Obj(o) && end
                == cl + 1 && globals1 == g && inc1 == i))
    } else {
        let close = if s[p] == '[' { ']' } else { ')' };
        exists|vs: Seq<ValueModel>, cl: int, g: Seq<(String, Value)>, i: Included|
            #[trigger] container_choice(vs, cl, g, i) && elems_read(s, p + 1, close, file, obj_pairs, globals0, g, inc0, i, (depth + 1) as usize, vs, cl) && (
            !is_first || !(cl + 1 < s.len() && spec_is_op(s[cl + 1])) ==> (v@ == (if s[p] == '[' {
                ValueModel::Arr(vs, v@->Arr_1)
            } else {
                ValueModel::Tup(vs)
            }) && end == cl + 1 && globals1 == g && inc1 == i))
    }
}

/// What reading a value at `p` gives (see `parse_value`): `r` is the result, `end` where the
/// reading stopped, `globals0`/`inc0` the globals and include state before it and
/// `globals1`/`inc1` after it, `line`/`col` the position of `p`, and `is_first` whether the value
/// may start a chain of operations.
pub open spec fn value_read(
    s: Seq<char>,
    p: int,
    file: Option<String>,
    obj_pairs: Seq<Pair>,
    globals0: Seq<(String, Value)>,
    globals1: Seq<(String, Value)>,
    inc0: Included,
    inc1: Included,
    line: usize,
    col: usize,
    depth: usize,
    cur_brace: Option<char>,
    is_first: bool,
    r: Result<Value, ParseError>,
    end: int,
) -> bool
    decreases s.len() - p, 0int,
{
    let c = s[p];
    &&& 0 <= p < s.len() && (c == '[' || c == '(' || c == '{') ==> (r matches Ok(v) ==> container_read(
        s,
        p,
        file,
        obj_pairs,
        globals0,
        globals1,
        inc0,
        inc1,
        depth,
        is_first,
        v,
        end,
    ))
    &&& !is_first && c == '<' ==> include_read(s, p, file, obj_pairs, globals0, inc0, inc1, (depth + 1) as usize, r)
    &&& is_first && c == '<' ==> match include_end(s, p, obj_pairs, globals0) {
        Some(e) => !(e < s.len() && spec_is_op(s[e])) ==> (r is Ok ==> end == e && include_read(
            s,
            p,
            file,
            obj_pairs,
            globals0,
            inc0,
            inc1,
            (depth + 1) as usize,
            r,
        )),
        None => true,
    }
    &&& !starts_value(c) ==> (r matches Err(e) && e.file == file && e.kind == ParseErrorKind::InvalidValueChar(
        c,
        line,
        col,
    ) && inc1 == inc0)
    &&& !is_first && c == '"' ==> str_result_ok(s, p + 1, r, end) && (r matches Err(e)
        ==> e.file == file)
    &&& !is_first && spec_is_numeric_char(c) ==> numeric_result_ok(s, p, line, col, r, end)
        && (r matches Err(e) ==> e.file == file)
    &&& !is_first && starts_variable(c) ==> var_result_ok(
        s,
        p,
        file,
        pairs_model(obj_pairs),
        named_values(globals0),
        line,
        col,
        r,
        end,
    )
    &&& is_first && c == '"' ==> match scan_str(s, p + 1) {
        StrScan::Done(text, e) => !(e < s.len() && spec_is_op(s[e])) ==> ((r is Ok <==> value_end_ok(
            char_at(s, e),
            cur_brace,
        )) && (r matches Ok(v) ==> v@ == ValueModel::Str(text) && end == e) && (r matches Err(
            err,
        ) ==> err.file == file)),
        _ => true,
    }
    &&& is_first && spec_is_numeric_char(c) ==> match atom_end(s, p) {
        Some(e) => !(e < s.len() && spec_is_op(s[e])) ==> ((r is Ok <==> value_end_ok(char_at(s, e), cur_brace))
            && (r is Ok ==> numeric_result_ok(s, p, line, col, r, end)) && (r matches Err(err)
            ==> err.file == file)),
        None => numeric_result_ok(s, p, line, col, r, end) && (r matches Err(err) ==> err.file
            == file),
    }
    &&& !is_first && (c == '+' || c == '-') && p + 1 < s.len() && spec_is_numeric_char(s[p + 1])
        ==> signed_numeric_ok(
        s,
        p + 1,
        line_col(s, (p + 1) as nat).0 as usize,
        line_col(s, (p + 1) as nat).1 as usize,
        sign_op(c),
        r,
        end,
    ) && (r matches Err(err) ==> err.file == file)
    &&& is_first && (c == '+' || c == '-') && p + 1 < s.len() && spec_is_numeric_char(s[p + 1]) ==> match atom_end(
        s,
        p,
    ) {
        Some(e) => !(e < s.len() && spec_is_op(s[e])) ==> ((r is Ok <==> value_end_ok(char_at(s, e), cur_brace))
            && (r is Ok ==> signed_numeric_ok(
            s,
            p + 1,
            line_col(s, (p + 1) as nat).0 as usize,
            line_col(s, (p + 1) as nat).1 as usize,
            sign_op(c),
            r,
            end,
        )) && (r matches Err(err) ==> err.file == file)),
        None => signed_numeric_ok(
            s,
            p + 1,
            line_col(s, (p + 1) as nat).0 as usize,
            line_col(s, (p + 1) as nat).1 as usize,
            sign_op(c),
            r,
            end,
        ) && (r matches Err(err) ==> err.file == file),
    }
    &&& is_first && starts_variable(c) ==> match atom_end(s, p) {
        Some(e) => !(e < s.len() && spec_is_op(s[e])) ==> match var_base(
            var_scan(s, p).0,
            c == '@',
            pairs_model(obj_pairs),
            named_values(globals0),
        ) {
            Some(x) => (r is Ok <==> value_end_ok(char_at(s, e), cur_brace)) && (r matches Ok(v) ==> v@ == x
                && end == e) && (r matches Err(err) ==> err.file == file),
            None => var_error_ok(var_scan(s, p).0, c == '@', line, col, r) && (r matches Err(err) ==> err.file
                == file),
        },
        None => true,
    }
    &&& is_first ==> chain_result_ok(
        s,
        p,
        pairs_model(obj_pairs),
        named_values(globals0),
        cur_brace,
        r,
        end,
    )
    &&& is_first && (chain_from(s, p, pairs_model(obj_pairs), named_values(globals0), Seq::empty(), Seq::empty()) matches Some(
        (_, cops, _),
    ) && cops.len() > 0) ==> globals1 == globals0
    &&& (c == '"' || spec_is_numeric_char(c) || starts_variable(c) || signed_start(s, p)) && (!is_first
        || !op_follows_atom(s, p)) ==> globals1 == globals0 && inc1 == inc0
    &&& is_first && c == '(' && depth < MAX_DEPTH ==> match simple_elems(
        s,
        p + 1,
        ')',
        types_env(pairs_model(obj_pairs)),
        types_env(named_values(globals0)),
        depth + 1,
    ) {
        Some((qs, cl)) => !(cl + 1 < s.len() && spec_is_op(s[cl + 1])) ==> ((r is Ok <==> value_end_ok(
            char_at(s, cl + 1),
            cur_brace,
        )) && (r matches Ok(v) ==> v@ matches ValueModel::Tup(vs) && elems_values_ok(
            s,
            qs,
            pairs_model(obj_pairs),
            named_values(globals0),
            vs,
            depth + 1,
        ) && end == cl + 1 && globals1 == globals0)),
        None => true,
    }
    &&& is_first && c == '[' && depth < MAX_DEPTH ==> match simple_elems(
        s,
        p + 1,
        ']',
        types_env(pairs_model(obj_pairs)),
        types_env(named_values(globals0)),
        depth + 1,
    ) {
        Some((qs, cl)) => match elems_type(
            TypeModel::Any,
            true,
            types_at(
                s,
                p + 1,
                ']',
                types_env(pairs_model(obj_pairs)),
                types_env(named_values(globals0)),
                depth + 1,
            ),
        ) {
            Some(t) => !(cl + 1 < s.len() && spec_is_op(s[cl + 1])) ==> ((r is Ok <==> value_end_ok(
                char_at(s, cl + 1),
                cur_brace,
            )) && (r matches Ok(v) ==> v@ matches ValueModel::Arr(vs, t2) && t2 == t && elems_values_ok(
                s,
                qs,
                pairs_model(obj_pairs),
                named_values(globals0),
                vs,
                depth + 1,
            ) && end == cl + 1 && globals1 == globals0)),
            None => r matches Err(e) && elems_mismatch(
                TypeModel::Any,
                true,
                types_at(
                    s,
                    p + 1,
                    ']',
                    types_env(pairs_model(obj_pairs)),
                    types_env(named_values(globals0)),
                    depth + 1,
                ),
                0,
            ) matches Some((k, tc)) && (e.kind matches ParseErrorKind::ExpectedType(t1, t2, l, cc) && t1@ == tc
                && t2@ == types_at(
                s,
                p + 1,
                ']',
                types_env(pairs_model(obj_pairs)),
                types_env(named_values(globals0)),
                depth + 1,
            )[k] && l == line_col(s, qs[k] as nat).0 && cc == line_col(s, qs[k] as nat).1),
        },
        None => true,
    }
    &&& is_first && c == '{' && depth < MAX_DEPTH ==> match simple_body(
        s,
        skip_ws_end(s, p + 1, false),
        Seq::empty(),
        types_env(named_values(globals0)),
        false,
        depth + 1,
    ) {
        Some(cl) => !(cl + 1 < s.len() && spec_is_op(s[cl + 1])) ==> ((r is Ok <==> value_end_ok(
            char_at(s, cl + 1),
            cur_brace,
        )) && (r matches Ok(v) ==> v@ matches ValueModel::Obj(o) && body_fields_ok(
            s,
            skip_ws_end(s, p + 1, false),
            0,
            o,
            false,
            named_values(globals0),
            depth + 1,
        ) && end == cl + 1 && globals1 == globals0)),
        None => true,
    }

}

// Gets the next value in the char stream.
#[verifier::rlimit(60)]
pub fn parse_value(
    stream: &mut CharStream,
    obj_pairs: &Vec<Pair>,
    globals: &mut Vec<(String, Value)>,
    included: &mut Included,
    line: usize,
    col: usize,
    depth: usize,
    cur_brace: Option<char>,
    is_first: bool,
) -> (r: Result<Value, ParseError>)
    requires
        old(stream).wf(),
        old(stream).pos < old(stream).contents@.len(),
        old(included).current_inactive(),
        depth_ok(*old(stream), depth),
        pair_values_wf(obj_pairs@),
        globals_wf(old(globals)@),
        old(included).values_wf(),
    ensures
        advanced(*old(stream), *final(stream)),
        r is Ok ==> final(stream).pos > old(stream).pos,
        r matches Ok(v) ==> wf_value(v@),
        r is Ok ==> old(included).same_frame(final(included)),
        r is Ok ==> globals_wf(final(globals)@) && final(included).values_wf(),
        value_read(
            old(stream).contents@,
            old(stream).pos as int,
            old(stream).file,
            obj_pairs@,
            old(globals)@,
            final(globals)@,
            *old(included),
            *final(included),
            line,
            col,
            depth,
            cur_brace,
            is_first,
            r,
            final(stream).pos as int,
        ),
    decreases old(included).fresh(), old(included).outside(), remaining(*old(stream)), 1nat,
{
    // Peek to determine what kind of value we'll be parsing.
    let ch = stream.peek().unwrap();
    let ghost mut g_mid: Seq<(String, Value)> = globals@;
    let ghost mut i_mid: Included = *included;
    let res = if ch == '"' {
        parse_str(stream)?
    } else if ch == '{' {
        let v = parse_obj(stream, globals, included, depth + 1)?;
        proof {
            g_mid = globals@;
            i_mid = *included;
        }
        v
    } else if ch == '[' {
        let v = parse_arr(stream, obj_pairs, globals, included, depth + 1)?;
        proof {
            g_mid = globals@;
            i_mid = *included;
        }
        v
    } else if ch == '(' {
        let v = parse_tup(stream, obj_pairs, globals, included, depth + 1)?;
        proof {
            g_mid = globals@;
            i_mid = *included;
        }
        v
    } else if ch == '<' {
        parse_include(stream, obj_pairs, globals, included, depth + 1)?
    } else if ch == '+' {
        parse_unary_op(stream, obj_pairs, globals, included, depth, cur_brace, UnaryOp::Plus)?
    } else if ch == '-' {
        parse_unary_op(stream, obj_pairs, globals, included, depth, cur_brace, UnaryOp::Minus)?
    } else if is_numeric_char(ch) {
        let v = match parse_numeric(stream, line, col) {
            Ok(v) => v,
            Err(e) => {
                return Err(e);
            },
        };
        proof {
            lemma_numeric_advances(old(stream).contents@, old(stream).pos as int);
        }
        v
    } else if Obj::is_valid_field_char(ch, true) || ch == '@' {
        parse_variable(stream, obj_pairs, globals, included, line, col, depth, cur_brace)?
    } else {
        return error(stream, ParseErrorKind::InvalidValueChar(ch, line, col));
    };

    let ghost e_mid = stream.pos as int;
    proof {
        let s = old(stream).contents@;
        let p = old(stream).pos as int;
        if ch == '[' {
            let vs = res@->Arr_0;
            assert(elems_read(s, p + 1, ']', old(stream).file, obj_pairs@, old(globals)@, g_mid, *old(included), i_mid, (depth + 1) as usize, vs, e_mid - 1));
            assert(container_choice(vs, e_mid - 1, g_mid, i_mid));
        }
        if ch == '{' {
            let o = res@->Obj_0;
            lemma_skip_ws_bounds(s, p + 1, false);
            assert(obj_fields_read(
                s,
                skip_ws_end(s, p + 1, false),
                old(stream).file,
                Some('}'),
                (depth + 1) as usize,
                old(globals)@,
                g_mid,
                *old(included),
                i_mid,
                o,
                e_mid - 1,
            ));
            assert(obj_choice(o, e_mid - 1, g_mid, i_mid));
        }
        if ch == '(' {
            let vs = res@->Tup_0;
            assert(elems_read(s, p + 1, ')', old(stream).file, obj_pairs@, old(globals)@, g_mid, *old(included), i_mid, (depth + 1) as usize, vs, e_mid - 1));
            assert(container_choice(vs, e_mid - 1, g_mid, i_mid));
        }
    }

    // Process operations if this is the first value.
    if !is_first {
        proof {
            assert(ch == '[' || ch == '(' || ch == '{' ==> container_read(
                old(stream).contents@,
                old(stream).pos as int,
                old(stream).file,
                obj_pairs@,
                old(globals)@,
                globals@,
                *old(included),
                *included,
                depth,
                is_first,
                res,
                stream.pos as int,
            ));
        }
        return Ok(res);
    }

    // A chain of numbers joined by operators, if one starts here.
    let ghost text = old(stream).contents@;
    let ghost pm = pairs_model(obj_pairs@);
    let ghost gm = named_values(old(globals)@);
    let ghost chain = chain_from(text, old(stream).pos as int, pm, gm, Seq::empty(), Seq::<BinaryOp>::empty());
    let ghost in_chain: bool = chain matches Some((_, cops, _)) && cops.len() > 0;
    let ghost cxs: Seq<ChainValue> = match chain { Some(t) => t.0, None => seq![ChainValue::Num(false, 0, 1)] };
    let ghost cops: Seq<BinaryOp> = match chain { Some(t) => t.1, None => Seq::empty() };
    let ghost cend: int = match chain { Some(t) => t.2, None => 0 };
    proof {
        if chain is Some {
            let p0 = old(stream).pos as int;
            let e0 = lemma_chain_start(text, p0, pm, gm);
            lemma_operand_start(text, p0, pm, gm);
            if spec_is_numeric_char(text[p0]) {
                lemma_unsigned_read(text, p0, line, col, Ok(res), stream.pos as int);
                lemma_number_read(text, p0, line, col, UnaryOp::Plus, Ok(res), stream.pos as int);
            } else if signed_start(text, p0) {
                lemma_number_read(
                    text,
                    p0 + 1,
                    line_col(text, (p0 + 1) as nat).0 as usize,
                    line_col(text, (p0 + 1) as nat).1 as usize,
                    sign_op(text[p0]),
                    Ok(res),
                    stream.pos as int,
                );
            }
        }
    }

    // Fast path: no operator follows the value, so no operation processing is needed.
    let follows_op = match stream.peek() {
        Some(c) => BinaryOp::get_op(c).is_some(),
        None => false,
    };
    if !follows_op {
        proof {
            if in_chain {
                lemma_chain_stop(text, stream.pos as int, pm, gm, cxs, cops, cend, 0);
            }
        }
        check_value_end(stream, cur_brace)?;
        proof {
            assert(ch == '[' || ch == '(' || ch == '{' ==> container_read(
                old(stream).contents@,
                old(stream).pos as int,
                old(stream).file,
                obj_pairs@,
                old(globals)@,
                globals@,
                *old(included),
                *included,
                depth,
                is_first,
                res,
                stream.pos as int,
            ));
        }
        return Ok(res);
    }

    let mut vals: Vec<(Value, usize, usize)> = Vec::new();
    let mut ops: Vec<BinaryOp> = Vec::new();
    vals.push((res, line, col));
    let ghost s0 = *old(stream);
    let ghost inc0 = *old(included);
    let ghost mut kk: nat = 0;
    let ghost mut ts: Seq<ChainValue> = seq![cxs[0]];

    loop
        invariant
            s0 == *old(stream),
            text == s0.contents@,
            pm == pairs_model(obj_pairs@),
            chain == chain_from(text, s0.pos as int, pm, gm, Seq::empty(), Seq::empty()),
            gm == named_values(old(globals)@),
            in_chain == (chain matches Some((_, o, _)) && o.len() > 0),
            in_chain ==> {
                &&& kk + 1 <= cxs.len()
                &&& cxs.len() == cops.len() + 1
                &&& chain == Some((cxs, cops, cend))
                &&& chain_after(text, stream.pos as int, pm, gm, cxs.take(kk + 1int), cops.take(kk as int)) == chain
                &&& ts.len() == vals@.len()
                &&& forall|j: int| 0 <= j < vals@.len() ==> chain_value_ok((#[trigger] vals@[j]).0@, ts[j])
                &&& forall|j: int| 0 <= j < ops@.len() ==> !(#[trigger] ops@[j]).spec_is_priority()
                &&& chain_terms(cxs, cops, kk, ts, ops@) == chain_terms(cxs, cops, 0, seq![cxs[0]], Seq::empty())
            },
            advanced(s0, *stream),
            stream.pos > s0.pos,
            depth_ok(s0, depth),
            vals@.len() == ops@.len() + 1,
            inc0 == *old(included),
            inc0.same_frame(included),
            inc0.current_inactive(),
            pair_values_wf(obj_pairs@),
            globals_wf(globals@),
            included.values_wf(),
            forall|j: int| 0 <= j < vals@.len() ==> wf_value((#[trigger] vals@[j]).0@),
            op_follows_atom(s0.contents@, s0.pos as int),
            op_follows_container(
                s0.contents@,
                s0.pos as int,
                depth,
                types_env(pairs_model(obj_pairs@)),
                types_env(named_values(old(globals)@)),
            ),
            spec_is_numeric_char(s0.contents@[s0.pos as int]) ==> atom_end(s0.contents@, s0.pos as int) is Some,
            signed_start(s0.contents@, s0.pos as int) ==> atom_end(s0.contents@, s0.pos as int) is Some,
            is_first,
            starts_value(s0.contents@[s0.pos as int]),
            in_chain ==> globals@ == old(globals)@,
        ensures
            !(stream.pos < stream.contents@.len() && spec_is_op(stream.contents@[stream.pos as int])),
        decreases stream.contents@.len() - stream.pos,
    {
        let c = match stream.peek() {
            Some(c) => c,
            None => break,
        };
        let op = match BinaryOp::get_op(c) {
            Some(op) => op,
            // Character was not an operator.
            None => break,
        };
        let ghost e2: int = 0;
        proof {
            if in_chain {
                e2 = lemma_chain_step(text, stream.pos as int, pm, gm, cxs, cops, cend, kk);
                lemma_operand_start(text, stream.pos + 1, pm, gm);
            }
        }
        let _ = stream.next();
        if stream.peek().is_none() {
            return error(stream, ParseErrorKind::UnexpectedEnd(stream.line()));
        }

        let (line2, col2) = (stream.line(), stream.col());
        let ghost q = stream.pos as int;

        // Parse another value.
        let val2 = parse_value(
            stream,
            obj_pairs,
            globals,
            included,
            line2,
            col2,
            depth,
            cur_brace,
            false,
        )?;
        proof {
            if in_chain {
                if spec_is_numeric_char(text[q]) {
                    lemma_unsigned_read(text, q, line2, col2, Ok(val2), stream.pos as int);
                    lemma_number_read(text, q, line2, col2, UnaryOp::Plus, Ok(val2), stream.pos as int);
                } else if signed_start(text, q) {
                    lemma_number_read(
                        text,
                        q + 1,
                        line_col(text, (q + 1) as nat).0 as usize,
                        line_col(text, (q + 1) as nat).1 as usize,
                        sign_op(text[q]),
                        Ok(val2),
                        stream.pos as int,
                    );
                }
            }
        }

        if op.is_priority() {
            let ghost before = vals@;
            let (val1, line1, col1) = vals.pop().unwrap();
            proof {
                assert(wf_value(before[before.len() - 1].0@));
            }
            let res = binary_op_on_values(stream, val1, val2, op, line2, col2);
            proof {
                lemma_binary_wf(val1@, val2@, op, line2, col2, res);
                if in_chain {
                    assert(chain_value_ok(val1@, ts.last()));
                    assert(chain_value_ok(val2@, cxs[kk + 1int]));
                    lemma_chain_op(val1@, ts.last(), val2@, cxs[kk + 1int], op, line2, col2, res);
                    assert(chain_terms(cxs, cops, kk, ts, ops@) == match chain_op(
                        ts.last(),
                        cops[kk as int],
                        cxs[kk + 1int],
                    ) {
                        Some(t) => chain_terms(cxs, cops, kk + 1, ts.update(ts.len() - 1, t), ops@),
                        None => None,
                    });
                }
            }
            let res = res?;
            vals.push((res, line1, col1));
            proof {
                assert forall|j: int| 0 <= j < vals@.len() implies wf_value((#[trigger] vals@[j]).0@) by {
                    if j < vals@.len() - 1 {
                        assert(vals@[j] == before[j]);
                    }
                }
                if in_chain {
                    let ts2 = ts.update(ts.len() - 1, chain_op(ts.last(), cops[kk as int], cxs[kk + 1int])->0);
                    assert forall|j: int| 0 <= j < vals@.len() implies chain_value_ok((#[trigger] vals@[j]).0@, ts2[j]) by {
                        if j < vals@.len() - 1 {
                            assert(vals@[j] == before[j]);
                        }
                    }
                    ts = ts2;
                    kk = kk + 1;
                }
            }
        } else {
            let ghost before = vals@;
            let ghost ops_before = ops@;
            vals.push((val2, line2, col2));
            ops.push(op);
            proof {
                if in_chain {
                    assert(chain_terms(cxs, cops, kk, ts, ops_before) == chain_terms(cxs, cops, kk + 1, ts.push(
                        cxs[kk + 1int],
                    ), ops@));
                    let ts2 = ts.push(cxs[kk + 1int]);
                    assert forall|j: int| 0 <= j < vals@.len() implies chain_value_ok((#[trigger] vals@[j]).0@, ts2[j]) by {
                        if j < vals@.len() - 1 {
                            assert(vals@[j] == before[j]);
                        }
                    }
                    assert forall|j: int| 0 <= j < ops@.len() implies !(#[trigger] ops@[j]).spec_is_priority() by {
                        if j < ops@.len() - 1 {
                            assert(ops@[j] == ops_before[j]);
                        }
                    }
                    ts = ts2;
                    kk = kk + 1;
                }
            }
        }
    }

    proof {
        if in_chain {
            lemma_chain_stop(text, stream.pos as int, pm, gm, cxs, cops, cend, kk);
            assert(chain_terms(cxs, cops, kk, ts, ops@) == Some((ts, ops@)));
        }
    }

    // Check for valid characters after the value.
    check_value_end(stream, cur_brace)?;

    let ghost all = vals@;
    let (mut val1, _, _) = vals.remove(0);
    proof {
        assert(wf_value(all[0].0@));
        if in_chain {
            assert(chain_value_ok(val1@, ts[0]));
            assert forall|j: int| 0 <= j < vals@.len() implies chain_value_ok((#[trigger] vals@[j]).0@, ts[1 + j]) by {
                assert(vals@[j] == all[j + 1]);
            }
        }
    }
    let ghost mut acc: ChainValue = ts[0];
    let mut k: usize = 0;
    let nops = ops.len();
    while k < nops
        invariant
            text == old(stream).contents@,
            pm == pairs_model(obj_pairs@),
            chain == chain_from(text, old(stream).pos as int, pm, gm, Seq::empty(), Seq::empty()),
            gm == named_values(old(globals)@),
            in_chain == (chain matches Some((_, o, _)) && o.len() > 0),
            in_chain ==> chain == Some((cxs, cops, cend)),
            in_chain ==> {
                &&& ts.len() == nops + 1
                &&& forall|j: int| 0 <= j < vals@.len() ==> chain_value_ok((#[trigger] vals@[j]).0@, ts[k + 1 + j])
                &&& chain_value_ok(val1@, acc)
                &&& fold_terms(Some(acc), ts, ops@, k as nat) == fold_terms(Some(ts[0]), ts, ops@, 0)
                &&& forall|j: int| 0 <= j < ops@.len() ==> !(#[trigger] ops@[j]).spec_is_priority()
                &&& stream.pos == cend
                &&& eval_chain(cxs, cops) == fold_terms(Some(ts[0]), ts, ops@, 0)
                &&& value_end_ok(char_at(text, cend), cur_brace)
                &&& text == stream.contents@
            },
            vals@.len() == nops - k,
            nops == ops@.len(),
            k <= nops,
            advanced(*old(stream), *stream),
            stream.pos > old(stream).pos,
            inc0 == *old(included),
            inc0.same_frame(included),
            wf_value(val1@),
            forall|j: int| 0 <= j < vals@.len() ==> wf_value((#[trigger] vals@[j]).0@),
            op_follows_atom(old(stream).contents@, old(stream).pos as int),
            op_follows_container(
                old(stream).contents@,
                old(stream).pos as int,
                depth,
                types_env(pairs_model(obj_pairs@)),
                types_env(named_values(old(globals)@)),
            ),
            spec_is_numeric_char(old(stream).contents@[old(stream).pos as int]) ==> atom_end(
                old(stream).contents@,
                old(stream).pos as int,
            ) is Some,
            signed_start(old(stream).contents@, old(stream).pos as int) ==> atom_end(
                old(stream).contents@,
                old(stream).pos as int,
            ) is Some,
            is_first,
            starts_value(old(stream).contents@[old(stream).pos as int]),
            in_chain ==> globals@ == old(globals)@,
        decreases nops - k,
    {
        let ghost before = vals@;
        let (val2, line2, col2) = vals.remove(0);
        proof {
            assert(wf_value(before[0].0@));
            assert forall|j: int| 0 <= j < vals@.len() implies wf_value((#[trigger] vals@[j]).0@) by {
                assert(vals@[j] == before[j + 1]);
            }
            if in_chain {
                assert(chain_value_ok(val2@, ts[k + 1]));
                assert forall|j: int| 0 <= j < vals@.len() implies chain_value_ok((#[trigger] vals@[j]).0@, ts[k + 2 + j]) by {
                    assert(vals@[j] == before[j + 1]);
                }
                assert(!ops@[k as int].spec_is_priority());
            }
        }
        let res = binary_op_on_values(stream, val1, val2, ops[k], line2, col2);
        proof {
            lemma_binary_wf(val1@, val2@, ops[k as int], line2, col2, res);
            if in_chain {
                lemma_chain_op(val1@, acc, val2@, ts[k + 1], ops@[k as int], line2, col2, res);
                if chain_op(acc, ops@[k as int], ts[k + 1]) is None {
                    lemma_fold_none(ts, ops@, (k + 1) as nat);
                }
                acc = chain_op(acc, ops@[k as int], ts[k + 1])->0;
            }
        }
        val1 = match res {
            Ok(v) => v,
            Err(e) => return Err(e),
        };
        k = k + 1;
    }
    proof {
        assert(follows_op && e_mid < text.len() && spec_is_op(text[e_mid]));
        assert(ch == '[' || ch == '(' || ch == '{' ==> container_read(
            old(stream).contents@,
            old(stream).pos as int,
            old(stream).file,
            obj_pairs@,
            old(globals)@,
            globals@,
            *old(included),
            *included,
            depth,
            is_first,
            val1,
            stream.pos as int,
        ));
    }
    Ok(val1)
}

/// A number read at `p` ends after `p` when it is valid.
proof fn lemma_numeric_advances(s: Seq<char>, p: int)
    requires
        0 <= p < s.len(),
    ensures
        num_scan(s, p, false, false, Seq::empty(), Seq::empty()) matches NumScan::Done(_, s1, s2, e)
            ==> (s1.len() > 0 || s2.len() > 0) ==> e > p,
{
    lemma_num_scan_end(s, p, false, false, Seq::empty(), Seq::empty());
}

/// Where a number ends, and that digits are only collected when characters are read.
proof fn lemma_num_scan_end(s: Seq<char>, i: int, dec: bool, under: bool, s1: Seq<char>, s2: Seq<char>)
    requires
        0 <= i <= s.len(),
    ensures
        num_scan(s, i, dec, under, s1, s2) matches NumScan::Done(_, t1, t2, e) ==> (e >= i && (e == i
            ==> t1 == s1 && t2 == s2)),
    decreases s.len() - i,
{
    if i < s.len() {
        let c = s[i];
        if is_ascii_digit(c) {
            if dec {
                lemma_num_scan_end(s, i + 1, dec, false, s1, s2.push(c));
            } else {
                lemma_num_scan_end(s, i + 1, dec, false, s1.push(c), s2);
            }
        } else if spec_is_value_end_char(c) {
        } else if c == '.' || c == ',' {
            if !dec {
                lemma_num_scan_end(s, i + 1, true, false, s1, s2);
            }
        } else if c == '_' {
            if !under {
                lemma_num_scan_end(s, i + 1, dec, true, s1, s2);
            }
        }
    }
}

pub fn parse_unary_op(
    stream: &mut CharStream,
    obj_pairs: &Vec<Pair>,
    globals: &mut Vec<(String, Value)>,
    included: &mut Included,
    depth: usize,
    cur_brace: Option<char>,
    op: UnaryOp,
) -> (r: Result<Value, ParseError>)
    requires
        old(stream).wf(),
        old(stream).pos < old(stream).contents@.len(),
        old(included).current_inactive(),
        depth_ok(*old(stream), depth),
        pair_values_wf(obj_pairs@),
        globals_wf(old(globals)@),
        old(included).values_wf(),
    ensures
        advanced(*old(stream), *final(stream)),
        r is Ok ==> final(stream).pos > old(stream).pos,
        r matches Ok(v) ==> wf_value(v@),
        r is Ok ==> old(included).same_frame(final(included)),
        r is Ok ==> globals_wf(final(globals)@) && final(included).values_wf(),
        r matches Ok(v) ==> v@ is Int || v@ is Frac,
        ({
            let s = old(stream).contents@;
            let p = old(stream).pos as int;
            p + 1 < s.len() && (spec_is_numeric_char(s[p + 1]) || starts_variable(s[p + 1]) || s[p + 1] == '"')
                ==> final(globals)@ == old(globals)@ && *final(included) == *old(included)
        }),
        old(stream).pos + 1 == old(stream).contents@.len() ==> (r matches Err(e) && e.file == old(stream).file
            && e.kind == ParseErrorKind::UnexpectedEnd(line_col(old(stream).contents@, old(stream).contents@.len()).0 as usize)),
        ({
            let s = old(stream).contents@;
            let p = old(stream).pos as int;
            p + 1 < s.len() && spec_is_numeric_char(s[p + 1]) ==> signed_numeric_ok(
                s,
                p + 1,
                line_col(s, (p + 1) as nat).0 as usize,
                line_col(s, (p + 1) as nat).1 as usize,
                op,
                r,
                final(stream).pos as int,
            ) && (r matches Err(e) ==> e.file == old(stream).file)
        }),
        ({
            let s = old(stream).contents@;
            let p = old(stream).pos as int;
            p + 1 < s.len() && starts_variable(s[p + 1]) ==> match var_path(
                s,
                p + 1,
                pairs_model(obj_pairs@),
                named_values(old(globals)@),
            ) {
                Some((v, e)) => unary_result_ok(
                    v,
                    op,
                    line_col(s, (p + 1) as nat).0 as usize,
                    line_col(s, (p + 1) as nat).1 as usize,
                    r,
                ) && (r is Ok ==> final(stream).pos == e),
                None => true,
            }
        }),
        ({
            let s = old(stream).contents@;
            let p = old(stream).pos as int;
            p + 1 < s.len() && s[p + 1] == '"' ==> match scan_str(s, p + 2) {
                StrScan::Done(text, _) => unary_result_ok(
                    ValueModel::Str(text),
                    op,
                    line_col(s, (p + 1) as nat).0 as usize,
                    line_col(s, (p + 1) as nat).1 as usize,
                    r,
                ),
                _ => r is Err,
            }
        }),
    decreases old(included).fresh(), old(included).outside(), remaining(*old(stream)), 0nat,
{
    let _ = stream.next();

    let line = stream.line();
    let col = stream.col();

    let res = match stream.peek() {
        Some(_) => parse_value(
            stream,
            obj_pairs,
            globals,
            included,
            line,
            col,
            depth + 1,
            cur_brace,
            false,
        )?,
        None => return error(stream, ParseErrorKind::UnexpectedEnd(line)),
    };
    unary_op_on_value(stream, res, op, line, col)
}

/// The name of a variable that starts at `p`, and where it ends: an optional '@' and a run of
/// field characters.
pub open spec fn var_scan(s: Seq<char>, p: int) -> (Seq<char>, int) {
    let g = 0 <= p < s.len() && s[p] == '@';
    let q = if g { p + 1 } else { p };
    let e = field_chars_end(s, q);
    ((if g { seq!['@'] } else { Seq::<char>::empty() }) + s.subrange(q, e), e)
}

/// The names and values of pairs.
pub open spec fn pairs_model(ps: Seq<Pair>) -> Seq<(Seq<char>, ValueModel)> {
    Seq::new(ps.len(), |i: int| (ps[i].0@, ps[i].1@))
}

/// The names and values of named values, such as global variables.
pub open spec fn named_values(gs: Seq<(String, Value)>) -> Seq<(Seq<char>, ValueModel)> {
    Seq::new(gs.len(), |i: int| (gs[i].0@, gs[i].1@))
}

/// The value of the first entry named `name` at or after `i`.
pub open spec fn first_value(ps: Seq<(Seq<char>, ValueModel)>, name: Seq<char>, i: nat) -> Option<ValueModel>
    decreases ps.len() - i,
{
    if i >= ps.len() {
        None
    } else if ps[i as int].0 == name {
        Some(ps[i as int].1)
    } else {
        first_value(ps, name, i + 1)
    }
}

/// `first_value` finds the first entry with the name, and nothing when no entry has it.
proof fn lemma_first_value(ps: Seq<(Seq<char>, ValueModel)>, name: Seq<char>, i: nat, k: int)
    requires
        i <= ps.len(),
        forall|j: int| i <= j < k ==> (#[trigger] ps[j]).0 != name,
        k == ps.len() || (i <= k < ps.len() && ps[k].0 == name),
    ensures
        first_value(ps, name, i) == (if k < ps.len() { Some(ps[k].1) } else { None }),
    decreases ps.len() - i,
{
    if i < k {
        lemma_first_value(ps, name, i + 1, k);
    }
}

/// The empty object that the word `Obj`, `Str`, `Arr` or `Tup` stands for.
pub open spec fn keyword_model(token: u8) -> ValueModel {
    ValueModel::Obj(ObjModel { pairs: Seq::empty(), parent: None, token })
}

/// The value a variable named `name` (a global one if `global`) stands for: one of the words
/// `null`, `true`, `false`, `Obj`, `Str`, `Arr` and `Tup`, or the value of the first global or
/// pair with that name; none for a lone `@` or a name that nothing has.
pub open spec fn var_base(
    name: Seq<char>,
    global: bool,
    pairs: Seq<(Seq<char>, ValueModel)>,
    globals: Seq<(Seq<char>, ValueModel)>,
) -> Option<ValueModel> {
    if name == "null"@ {
        Some(ValueModel::Null)
    } else if name == "true"@ {
        Some(ValueModel::Bool(true))
    } else if name == "false"@ {
        Some(ValueModel::Bool(false))
    } else if name == "Obj"@ {
        Some(keyword_model(1))
    } else if name == "Str"@ {
        Some(keyword_model(2))
    } else if name == "Arr"@ {
        Some(keyword_model(3))
    } else if name == "Tup"@ {
        Some(keyword_model(4))
    } else if name == "@"@ {
        None
    } else if global {
        first_value(globals, name, 0)
    } else {
        first_value(pairs, name, 0)
    }
}

/// The error for a variable that stands for nothing: a lone `@` is no value, other names were
/// not found among the globals or the pairs.
pub open spec fn var_error_ok(name: Seq<char>, global: bool, line: usize, col: usize, r: Result<Value, ParseError>) -> bool {
    r matches Err(e) && if name == "@"@ {
        e.kind matches ParseErrorKind::InvalidValue(n, l, c) && n@ == name && l == line && c == col
    } else if global {
        e.kind matches ParseErrorKind::GlobalNotFound(n, l, c) && n@ == name && l == line && c == col
    } else {
        e.kind matches ParseErrorKind::VariableNotFound(n, l, c) && n@ == name && l == line && c == col
    }
}

/// What a variable named `name` is, when no dot follows it.
pub open spec fn var_value_ok(
    name: Seq<char>,
    global: bool,
    pairs: Seq<(Seq<char>, ValueModel)>,
    globals: Seq<(Seq<char>, ValueModel)>,
    line: usize,
    col: usize,
    r: Result<Value, ParseError>,
) -> bool {
    match var_base(name, global, pairs, globals) {
        Some(x) => r matches Ok(v) && v@ == x,
        None => var_error_ok(name, global, line, col, r),
    }
}

/// What a variable named `name` followed by a dot and the character `next` gives, as far as
/// the variable decides it: its error if it stands for nothing; `InvalidDot` if it is not a
/// container; `InvalidValueChar` for a global after the dot of an object, at `next_pos`.
pub open spec fn var_dot_ok(
    name: Seq<char>,
    global: bool,
    pairs: Seq<(Seq<char>, ValueModel)>,
    globals: Seq<(Seq<char>, ValueModel)>,
    line: usize,
    col: usize,
    next: char,
    next_pos: (nat, nat),
    r: Result<Value, ParseError>,
) -> bool {
    match var_base(name, global, pairs, globals) {
        None => var_error_ok(name, global, line, col, r),
        Some(x) => match x {
            ValueModel::Arr(_, _) => true,
            ValueModel::Tup(_) => true,
            ValueModel::Obj(_) => next == '@' ==> (r matches Err(e) && e.kind == ParseErrorKind::InvalidValueChar(
                '@',
                next_pos.0 as usize,
                next_pos.1 as usize,
            )),
            _ => r matches Err(e) && e.kind matches ParseErrorKind::InvalidDot(t, l, c) && t@ == model_type_of(x) && l
                == line && c == col,
        },
    }
}

/// The value that the variable path written at `p` stands for, and where it ends, when it
/// reads without error: a variable (see `var_base`), then, after a dot, for an object a path
/// among that object's own fields, and for an array or a tuple the element at an index (see
/// `index_at`).
pub open spec fn var_path(
    s: Seq<char>,
    p: int,
    pairs: Seq<(Seq<char>, ValueModel)>,
    globals: Seq<(Seq<char>, ValueModel)>,
) -> Option<(ValueModel, int)>
    decreases s.len() - p, 0int,
{
    let (name, e) = var_scan(s, p);
    if !(0 <= p <= e <= s.len()) {
        None
    } else {
        match var_base(name, p < s.len() && s[p] == '@', pairs, globals) {
            None => None,
            Some(x) => if e >= s.len() || (s[e] != '.' && spec_is_value_end_char(s[e])) {
                Some((x, e))
            } else if s[e] == '.' && e + 1 < s.len() && (s[e + 1] == '@' || spec_is_valid_field_char(s[e + 1], true)
                || spec_is_numeric_char(s[e + 1])) {
                match x {
                    ValueModel::Obj(o) => if s[e + 1] != '@' {
                        var_path(s, e + 1, o.pairs, globals)
                    } else {
                        None
                    },
                    ValueModel::Arr(vs, _) => elem_at(vs, index_at(s, e + 1, pairs, globals)),
                    ValueModel::Tup(vs) => elem_at(vs, index_at(s, e + 1, pairs, globals)),
                    _ => None,
                }
            } else {
                None
            },
        }
    }
}

/// An index written at `q` after a dot: a number without a fraction, or a variable path (see
/// `var_path`) that stands for an integer; its value and where it ends.
pub open spec fn index_at(
    s: Seq<char>,
    q: int,
    pairs: Seq<(Seq<char>, ValueModel)>,
    globals: Seq<(Seq<char>, ValueModel)>,
) -> Option<(int, int)>
    decreases s.len() - q, 1int,
{
    if !(0 <= q < s.len()) {
        None
    } else if spec_is_numeric_char(s[q]) {
        match num_scan(s, q, false, false, Seq::empty(), Seq::empty()) {
            NumScan::Done(dec, s1, _, e) => if !dec && s1.len() > 0 {
                Some((decimal_value(s1) as int, e))
            } else {
                None
            },
            _ => None,
        }
    } else if starts_variable(s[q]) {
        match var_path(s, q, pairs, globals) {
            Some((ValueModel::Int(i), e)) => Some((i, e)),
            _ => None,
        }
    } else {
        None
    }
}

/// The element at the index `idx` gives (see `index_at`), with where the index ends, if it is
/// within `vs`.
pub open spec fn elem_at(vs: Seq<ValueModel>, idx: Option<(int, int)>) -> Option<(ValueModel, int)> {
    match idx {
        Some((i, e)) => if 0 <= i < vs.len() && i <= usize::MAX {
            Some((vs[i], e))
        } else {
            None
        },
        None => None,
    }
}

/// What reading a variable at `p` gives, as far as the variable itself decides it; `file`
/// is the file of the input, and `end` where reading stopped.
pub open spec fn var_result_ok(
    s: Seq<char>,
    p: int,
    file: Option<String>,
    pairs: Seq<(Seq<char>, ValueModel)>,
    globals: Seq<(Seq<char>, ValueModel)>,
    line: usize,
    col: usize,
    r: Result<Value, ParseError>,
    end: int,
) -> bool {
    let (name, e) = var_scan(s, p);
    &&& var_path(s, p, pairs, globals) matches Some((v, e2)) ==> r matches Ok(x) && x@ == v && end == e2
    &&& e < s.len() && s[e] != '.' && !spec_is_value_end_char(s[e]) ==> (r matches Err(err) && err.file == file
        && err.kind == ParseErrorKind::InvalidValueChar(
        s[e],
        line_col(s, e as nat).0 as usize,
        line_col(s, e as nat).1 as usize,
    ))
    &&& e >= s.len() || (s[e] != '.' && spec_is_value_end_char(s[e])) ==> {
        &&& var_value_ok(name, s[p] == '@', pairs, globals, line, col, r)
        &&& r matches Err(err) ==> err.file == file
        &&& r is Ok ==> end == e
    }
    &&& e + 1 == s.len() && s[e] == '.' ==> (r matches Err(err) && err.file == file && err.kind
        == ParseErrorKind::UnexpectedEnd(line_col(s, (e + 1) as nat).0 as usize))
    &&& e + 1 < s.len() && s[e] == '.' && !(s[e + 1] == '@' || spec_is_valid_field_char(s[e + 1], true)
        || spec_is_numeric_char(s[e + 1])) ==> (r matches Err(err) && err.file == file && err.kind
        == ParseErrorKind::InvalidValueChar(
        s[e + 1],
        line_col(s, (e + 1) as nat).0 as usize,
        line_col(s, (e + 1) as nat).1 as usize,
    ))
    &&& e + 1 < s.len() && s[e] == '.' && (s[e + 1] == '@' || spec_is_valid_field_char(s[e + 1], true)
        || spec_is_numeric_char(s[e + 1])) ==> var_dot_ok(
        name,
        s[p] == '@',
        pairs,
        globals,
        line,
        col,
        s[e + 1],
        line_col(s, (e + 1) as nat),
        r,
    )
}

/// The character at `e`, if any.
pub open spec fn char_at(s: Seq<char>, e: int) -> Option<char> {
    if 0 <= e < s.len() {
        Some(s[e])
    } else {
        None
    }
}

/// Where the single string, number or variable without a dot that starts at `p` ends, if
/// one does and can be read without error.
pub open spec fn atom_end(s: Seq<char>, p: int) -> Option<int> {
    let c = s[p];
    if c == '"' {
        match scan_str(s, p + 1) {
            StrScan::Done(_, e) => Some(e),
            _ => None,
        }
    } else if spec_is_numeric_char(c) {
        match num_scan(s, p, false, false, Seq::empty(), Seq::empty()) {
            NumScan::Done(dec, s1, s2, e) => if s1.len() > 0 || (dec && s2.len() > 0) {
                Some(e)
            } else {
                None
            },
            _ => None,
        }
    } else if (c == '+' || c == '-') && p + 1 < s.len() && spec_is_numeric_char(s[p + 1]) {
        match num_scan(s, p + 1, false, false, Seq::empty(), Seq::empty()) {
            NumScan::Done(dec, s1, s2, e) => if s1.len() > 0 || (dec && s2.len() > 0) {
                Some(e)
            } else {
                None
            },
            _ => None,
        }
    } else if starts_variable(c) {
        let (_, e) = var_scan(s, p);
        if e >= s.len() || (s[e] != '.' && spec_is_value_end_char(s[e])) {
            Some(e)
        } else {
            None
        }
    } else {
        None
    }
}

/// A sign followed by a number starts at `p`.
pub open spec fn signed_start(s: Seq<char>, p: int) -> bool {
    0 <= p && p + 1 < s.len() && (s[p] == '+' || s[p] == '-') && spec_is_numeric_char(s[p + 1])
}

/// The unary operator that a sign `c` writes.
pub open spec fn sign_op(c: char) -> UnaryOp {
    if c == '-' {
        UnaryOp::Minus
    } else {
        UnaryOp::Plus
    }
}

/// The number `op` makes of `v`: `v` itself for `+`, its negation for `-`.
pub open spec fn signed_value(op: UnaryOp, v: ValueModel) -> ValueModel {
    match (op, v) {
        (UnaryOp::Minus, ValueModel::Int(i)) => ValueModel::Int(-i),
        (UnaryOp::Minus, ValueModel::Frac(n, m)) => ValueModel::Frac(-n, m),
        _ => v,
    }
}

/// What reading the number at `p` after a sign `op` gives, as `numeric_result_ok` says for
/// the number alone: the same errors, or the number with the sign applied.
pub open spec fn signed_numeric_ok(
    s: Seq<char>,
    p: int,
    line: usize,
    col: usize,
    op: UnaryOp,
    r: Result<Value, ParseError>,
    end: int,
) -> bool {
    match num_scan(s, p, false, false, Seq::empty(), Seq::empty()) {
        NumScan::Bad(c, k) => r matches Err(e) && e.kind == ParseErrorKind::InvalidValueChar(
            c,
            line_col(s, k as nat).0 as usize,
            line_col(s, k as nat).1 as usize,
        ),
        NumScan::Done(dec, s1, s2, e) => if s1.len() == 0 && (!dec || s2.len() == 0) {
            r matches Err(err) && err.kind == ParseErrorKind::InvalidNumeric(line, col)
        } else {
            r matches Ok(v) && numeric_value(s, p, signed_value(op, v@)) && end == e
        },
    }
}

/// `v` is the number written at `p`.
pub open spec fn numeric_value(s: Seq<char>, p: int, v: ValueModel) -> bool {
    match num_scan(s, p, false, false, Seq::empty(), Seq::empty()) {
        NumScan::Done(dec, s1, s2, _) => if dec {
            let whole = decimal_value(s1) as int;
            let t = trim_zeros(s2);
            let k: nat = if t.len() == 0 { 1 } else { t.len() };
            let d = decimal_value(t) as int;
            v matches ValueModel::Frac(n, m) && m > 0 && n * pow(10, k) == (whole * pow(10, k) + d) * m
        } else {
            v == ValueModel::Int(decimal_value(s1) as int)
        },
        _ => false,
    }
}

/// `v` is the value of the single string, number or variable written at `q`, with `pairs`
/// the fields read so far and `globals` the global variables.
pub open spec fn atom_value_ok(
    s: Seq<char>,
    q: int,
    pairs: Seq<(Seq<char>, ValueModel)>,
    globals: Seq<(Seq<char>, ValueModel)>,
    v: ValueModel,
) -> bool {
    if s[q] == '"' {
        scan_str(s, q + 1) matches StrScan::Done(text, _) && v == ValueModel::Str(text)
    } else if spec_is_numeric_char(s[q]) {
        numeric_value(s, q, v)
    } else if s[q] == '+' || s[q] == '-' {
        numeric_value(s, q + 1, signed_value(sign_op(s[q]), v))
    } else if starts_variable(s[q]) {
        var_base(var_scan(s, q).0, s[q] == '@', pairs, globals) == Some(v)
    } else {
        true
    }
}

/// Where the value written at `q` ends: a single string, number or variable with no operator
/// after it, or else a chain of numbers joined by `+`, `-`, `*`, `/` and `%` with a defined
/// value.
pub open spec fn expr_end(s: Seq<char>, q: int) -> Option<int> {
    match atom_end(s, q) {
        Some(e) => if !(e < s.len() && spec_is_op(s[e])) {
            Some(e)
        } else {
            match chain_from(s, q, Seq::empty(), Seq::empty(), Seq::empty(), Seq::empty()) {
                Some((xs, ops, e2)) => if eval_chain(xs, ops) is Some {
                    Some(e2)
                } else {
                    None
                },
                None => None,
            }
        },
        None => None,
    }
}

/// `v` is the value written at `q` (see `expr_end`): that of a single string, number or
/// variable, or else the value of a chain of numbers.
pub open spec fn expr_value_ok(
    s: Seq<char>,
    q: int,
    pairs: Seq<(Seq<char>, ValueModel)>,
    globals: Seq<(Seq<char>, ValueModel)>,
    v: ValueModel,
) -> bool {
    match atom_end(s, q) {
        Some(e) => if !(e < s.len() && spec_is_op(s[e])) {
            atom_value_ok(s, q, pairs, globals, v)
        } else {
            match chain_from(s, q, Seq::empty(), Seq::empty(), Seq::empty(), Seq::empty()) {
                Some((xs, ops, _)) => match eval_chain(xs, ops) {
                    Some(n) => chain_value_ok(v, n),
                    None => false,
                },
                None => false,
            }
        },
        None => atom_value_ok(s, q, pairs, globals, v),
    }
}

/// The names of named values with the types of their values, in order.
pub open spec fn types_env(ps: Seq<(Seq<char>, ValueModel)>) -> Seq<(Seq<char>, TypeModel)> {
    Seq::new(ps.len(), |i: int| (ps[i].0, model_type_of(ps[i].1)))
}

/// The type given for the first entry named `name` at or after `i`.
pub open spec fn first_type(env: Seq<(Seq<char>, TypeModel)>, name: Seq<char>, i: nat) -> Option<TypeModel>
    decreases env.len() - i,
{
    if i >= env.len() {
        None
    } else if env[i as int].0 == name {
        Some(env[i as int].1)
    } else {
        first_type(env, name, i + 1)
    }
}

/// The type of the value that a variable named `name` (a global one if `global`) stands for
/// (see `var_base`), with `env` and `genv` the names and types of the fields and the globals.
pub open spec fn var_type(
    name: Seq<char>,
    global: bool,
    env: Seq<(Seq<char>, TypeModel)>,
    genv: Seq<(Seq<char>, TypeModel)>,
) -> Option<TypeModel> {
    if name == "null"@ {
        Some(TypeModel::Null)
    } else if name == "true"@ || name == "false"@ {
        Some(TypeModel::Bool)
    } else if name == "Obj"@ || name == "Str"@ || name == "Arr"@ || name == "Tup"@ {
        Some(TypeModel::Obj)
    } else if name == "@"@ {
        None
    } else if global {
        first_type(genv, name, 0)
    } else {
        first_type(env, name, 0)
    }
}

/// `first_type` on the types of named values gives the type of what `first_value` finds.
proof fn lemma_first_type(ps: Seq<(Seq<char>, ValueModel)>, name: Seq<char>, i: nat)
    requires
        i <= ps.len(),
    ensures
        first_type(types_env(ps), name, i) == match first_value(ps, name, i) {
            Some(v) => Some(model_type_of(v)),
            None => None,
        },
    decreases ps.len() - i,
{
    if i < ps.len() {
        lemma_first_type(ps, name, i + 1);
    }
}

/// `var_type` on the types of named values gives the type of what `var_base` finds.
proof fn lemma_var_type(
    name: Seq<char>,
    global: bool,
    pairs: Seq<(Seq<char>, ValueModel)>,
    globals: Seq<(Seq<char>, ValueModel)>,
)
    ensures
        var_type(name, global, types_env(pairs), types_env(globals)) == match var_base(name, global, pairs, globals) {
            Some(v) => Some(model_type_of(v)),
            None => None,
        },
{
    lemma_first_type(pairs, name, 0);
    lemma_first_type(globals, name, 0);
}

/// A field at `i` whose value is simple (see `simple_end`) and reads without error, given the
/// names and types of the fields before it in the same object (`env`) and of the globals
/// (`genv`), the closing brace expected, and the nesting depth `d` of the object: its name,
/// where its value starts, and where it ends. A regular field has a new name; a global (one
/// whose name starts with `@`) is only at the top and has a new name too; the parent field
/// `^` has an object as value.
pub open spec fn simple_field(
    s: Seq<char>,
    i: int,
    env: Seq<(Seq<char>, TypeModel)>,
    genv: Seq<(Seq<char>, TypeModel)>,
    cur_brace: Option<char>,
    d: int,
) -> Option<(Seq<char>, int, int)>
    decreases s.len() - i, 2int,
{
    match scan_field(s, i) {
        FieldScan::Name(n, fe) => {
            let q = skip_ws_end(s, fe, false);
            if 0 <= i < q < s.len() && !spec_is_reserved(n) && !(n.len() > 0 && n[0] == '^' && n != seq!['^']) && (
            n == seq!['^'] ==> s[i] != '@') && (s[i] == '@' ==> cur_brace is None && !names_of_env(genv).contains(n))
                && (s[i] != '@' && n != seq!['^'] ==> !names_of_env(env).contains(n)) {
                match simple_end(s, q, env, genv, d) {
                    Some(e) => if value_end_ok(char_at(s, e), cur_brace) && (starts_variable(s[q]) ==> var_type(
                        var_scan(s, q).0,
                        s[q] == '@',
                        env,
                        genv,
                    ) is Some) && (n == seq!['^'] ==> simple_type(s, q, env, genv, d) == TypeModel::Obj) {
                        Some((n, q, e))
                    } else {
                        None
                    },
                    None => None,
                }
            } else {
                None
            }
        },
        _ => None,
    }
}

/// The names of an environment, in order.
pub open spec fn names_of_env(env: Seq<(Seq<char>, TypeModel)>) -> Seq<Seq<char>> {
    Seq::new(env.len(), |i: int| env[i].0)
}

/// Where a simple value written at `q` ends, at nesting depth `d`, with `env` and `genv` the
/// fields and globals a variable may name: a tuple of simple values, an array of simple values
/// whose types fit, or an object of simple fields (see `simple_body`), none of them followed by
/// an operator; or else a single string, number or variable, or a chain of numbers (see
/// `expr_end`).
pub open spec fn simple_end(
    s: Seq<char>,
    q: int,
    env: Seq<(Seq<char>, TypeModel)>,
    genv: Seq<(Seq<char>, TypeModel)>,
    d: int,
) -> Option<int>
    decreases s.len() - q, 0int,
{
    if 0 <= q < s.len() && (s[q] == '(' || s[q] == '[' || s[q] == '{') {
        if d < MAX_DEPTH {
            let close = if s[q] == '(' {
                match simple_elems(s, q + 1, ')', env, genv, d + 1) {
                    Some((_, c)) => Some(c),
                    None => None,
                }
            } else if s[q] == '[' {
                match simple_elems(s, q + 1, ']', env, genv, d + 1) {
                    Some((_, c)) => if elems_type(TypeModel::Any, true, types_at(s, q + 1, ']', env, genv, d + 1)) is Some {
                        Some(c)
                    } else {
                        None
                    },
                    None => None,
                }
            } else {
                let b = skip_ws_end(s, q + 1, false);
                if q < b < s.len() {
                    simple_body(s, b, Seq::empty(), genv, false, d + 1)
                } else {
                    None
                }
            };
            match close {
                Some(c) => if q < c < s.len() && !(c + 1 < s.len() && spec_is_op(s[c + 1])) {
                    Some(c + 1)
                } else {
                    None
                },
                None => None,
            }
        } else {
            None
        }
    } else {
        expr_end(s, q)
    }
}

/// From `i` on, inside a tuple or array that `close` ends and whose elements are at nesting
/// depth `d`, the text is a list of simple values (see `simple_end`) that read without error,
/// and then `close`: where each value starts, and where `close` stands. Every variable names
/// a value (see `var_type`).
pub open spec fn simple_elems(
    s: Seq<char>,
    i: int,
    close: char,
    env: Seq<(Seq<char>, TypeModel)>,
    genv: Seq<(Seq<char>, TypeModel)>,
    d: int,
) -> Option<(Seq<int>, int)>
    decreases s.len() - i, 1int,
{
    let q = skip_ws_end(s, i, false);
    if !(0 <= i <= q < s.len()) {
        None
    } else if s[q] == close {
        Some((Seq::empty(), q))
    } else if spec_is_end_delimiter(s[q]) {
        None
    } else {
        match simple_end(s, q, env, genv, d) {
            Some(e) => if i < e <= s.len() && value_end_ok(char_at(s, e), Some(close)) && (starts_variable(s[q])
                ==> var_type(var_scan(s, q).0, s[q] == '@', env, genv) is Some) {
                match simple_elems(s, e, close, env, genv, d) {
                    Some((qs, c)) => Some((seq![q] + qs, c)),
                    None => None,
                }
            } else {
                None
            },
            None => None,
        }
    }
}

/// The types of the simple values written from `i` on inside a tuple or array that `close`
/// ends (see `simple_elems`).
pub open spec fn types_at(
    s: Seq<char>,
    i: int,
    close: char,
    env: Seq<(Seq<char>, TypeModel)>,
    genv: Seq<(Seq<char>, TypeModel)>,
    d: int,
) -> Seq<TypeModel>
    decreases s.len() - i, 1int,
{
    let q = skip_ws_end(s, i, false);
    if !(0 <= i <= q < s.len()) || s[q] == close || spec_is_end_delimiter(s[q]) {
        Seq::empty()
    } else {
        match simple_end(s, q, env, genv, d) {
            Some(e) => if i < e <= s.len() {
                seq![simple_type(s, q, env, genv, d)] + types_at(s, e, close, env, genv, d)
            } else {
                Seq::empty()
            },
            None => Seq::empty(),
        }
    }
}

/// The type of the simple value written at `q` (see `simple_end`): that of a tuple of its
/// elements' types, an array of the type they fit, an object, or else as `expr_type` gives it.
pub open spec fn simple_type(
    s: Seq<char>,
    q: int,
    env: Seq<(Seq<char>, TypeModel)>,
    genv: Seq<(Seq<char>, TypeModel)>,
    d: int,
) -> TypeModel
    decreases s.len() - q, 0int,
{
    if 0 <= q < s.len() && s[q] == '(' {
        TypeModel::Tup(types_at(s, q + 1, ')', env, genv, d + 1))
    } else if 0 <= q < s.len() && s[q] == '[' {
        match elems_type(TypeModel::Any, true, types_at(s, q + 1, ']', env, genv, d + 1)) {
            Some(t) => TypeModel::Arr(Box::new(t)),
            None => TypeModel::Any,
        }
    } else if 0 <= q < s.len() && s[q] == '{' {
        TypeModel::Obj
    } else {
        expr_type(s, q, env, genv)
    }
}

/// From `i` (not whitespace) on, inside an object at nesting depth `d`, after the fields `env`
/// and a parent field if `seen`, the text is a list of simple fields (see `simple_field`), no
/// global among them and at most one parent, and then `}`: where the `}` stands.
pub open spec fn simple_body(
    s: Seq<char>,
    i: int,
    env: Seq<(Seq<char>, TypeModel)>,
    genv: Seq<(Seq<char>, TypeModel)>,
    seen: bool,
    d: int,
) -> Option<int>
    decreases s.len() - i, 3int,
{
    if !(0 <= i < s.len()) {
        None
    } else if s[i] == '}' {
        Some(i)
    } else {
        match simple_field(s, i, env, genv, Some('}'), d) {
            Some((n, q, e)) => {
                let next = skip_ws_end(s, e, false);
                if i < q < s.len() && i < next < s.len() && !(n == seq!['^'] && seen) {
                    if n == seq!['^'] {
                        simple_body(s, next, env, genv, true, d)
                    } else {
                        simple_body(s, next, env.push((n, simple_type(s, q, env, genv, d))), genv, seen, d)
                    }
                } else {
                    None
                }
            },
            None => None,
        }
    }
}

/// One step of `simple_elems` from `i`: at the first character after whitespace, either the
/// closer, or a simple value followed by the rest.
proof fn lemma_simple_elems_at(
    s: Seq<char>,
    i: int,
    close: char,
    env: Seq<(Seq<char>, TypeModel)>,
    genv: Seq<(Seq<char>, TypeModel)>,
    d: int,
)
    requires
        simple_elems(s, i, close, env, genv, d) is Some,
    ensures
        ({
            let q = skip_ws_end(s, i, false);
            let (qs, c) = simple_elems(s, i, close, env, genv, d)->0;
            &&& 0 <= i <= q < s.len()
            &&& s[q] == close ==> qs.len() == 0 && c == q
            &&& s[q] != close ==> {
                &&& !spec_is_end_delimiter(s[q])
                &&& qs.len() > 0 && qs[0] == q
                &&& simple_end(s, q, env, genv, d) matches Some(e) && i < e <= s.len() && value_end_ok(
                    char_at(s, e),
                    Some(close),
                ) && simple_elems(s, e, close, env, genv, d) == Some((qs.drop_first(), c))
                &&& starts_variable(s[q]) ==> var_type(var_scan(s, q).0, s[q] == '@', env, genv) is Some
            }
        }),
{
    let q = skip_ws_end(s, i, false);
    if s[q] != close {
        let e = simple_end(s, q, env, genv, d)->0;
        let (qs2, c) = simple_elems(s, e, close, env, genv, d)->0;
        assert((seq![q] + qs2).drop_first() =~= qs2);
    }
}

/// Every value that `simple_elems` finds is inside the text, is simple, and names a value if
/// it is a variable.
proof fn lemma_simple_elems_all(
    s: Seq<char>,
    i: int,
    close: char,
    env: Seq<(Seq<char>, TypeModel)>,
    genv: Seq<(Seq<char>, TypeModel)>,
    d: int,
)
    requires
        simple_elems(s, i, close, env, genv, d) is Some,
    ensures
        ({
            let (qs, c) = simple_elems(s, i, close, env, genv, d)->0;
            forall|k: int| #![trigger qs[k]] 0 <= k < qs.len() ==> {
                &&& 0 <= qs[k] < s.len()
                &&& simple_end(s, qs[k], env, genv, d) is Some
                &&& starts_variable(s[qs[k]]) ==> var_type(var_scan(s, qs[k]).0, s[qs[k]] == '@', env, genv) is Some
            }
        }),
    decreases s.len() - i,
{
    lemma_simple_elems_at(s, i, close, env, genv, d);
    let q = skip_ws_end(s, i, false);
    let (qs, c) = simple_elems(s, i, close, env, genv, d)->0;
    if s[q] != close {
        let e = simple_end(s, q, env, genv, d)->0;
        lemma_simple_elems_all(s, e, close, env, genv, d);
        assert forall|k: int| #![trigger qs[k]] 0 <= k < qs.len() implies {
            &&& 0 <= qs[k] < s.len()
            &&& simple_end(s, qs[k], env, genv, d) is Some
            &&& starts_variable(s[qs[k]]) ==> var_type(var_scan(s, qs[k]).0, s[qs[k]] == '@', env, genv) is Some
        } by {
            if k > 0 {
                assert(qs[k] == qs.drop_first()[k - 1]);
            }
        }
    }
}

/// `types_at` gives the types of the values that `simple_elems` finds, in order.
proof fn lemma_types_at(
    s: Seq<char>,
    i: int,
    close: char,
    env: Seq<(Seq<char>, TypeModel)>,
    genv: Seq<(Seq<char>, TypeModel)>,
    d: int,
)
    requires
        simple_elems(s, i, close, env, genv, d) is Some,
    ensures
        ({
            let (qs, _) = simple_elems(s, i, close, env, genv, d)->0;
            &&& types_at(s, i, close, env, genv, d).len() == qs.len()
            &&& forall|k: int| 0 <= k < qs.len() ==> types_at(s, i, close, env, genv, d)[k] == simple_type(
                s,
                #[trigger] qs[k],
                env,
                genv,
                d,
            )
        }),
    decreases s.len() - i,
{
    lemma_simple_elems_at(s, i, close, env, genv, d);
    let q = skip_ws_end(s, i, false);
    let (qs, c) = simple_elems(s, i, close, env, genv, d)->0;
    if s[q] != close {
        let e = simple_end(s, q, env, genv, d)->0;
        lemma_types_at(s, e, close, env, genv, d);
        let ts = types_at(s, i, close, env, genv, d);
        assert forall|k: int| 0 <= k < qs.len() implies ts[k] == simple_type(s, #[trigger] qs[k], env, genv, d) by {
            if k > 0 {
                assert(qs[k] == qs.drop_first()[k - 1]);
            }
        }
    }
}

/// What reading a simple value at `q` needs: a number or variable followed by an operator
/// starts a chain with that operator in it, and a chain that reads with no fields and no
/// globals is the same with the fields `pairs` and the globals `globals`.
proof fn lemma_simple_value_start(s: Seq<char>, q: int, pairs: Seq<Pair>, globals: Seq<(Seq<char>, ValueModel)>)
    requires
        0 <= q < s.len(),
    ensures
        (atom_end(s, q) matches Some(e) && e < s.len() && spec_is_op(s[e])) ==> (chain_from(
            s,
            q,
            pairs_model(pairs),
            globals,
            Seq::empty(),
            Seq::empty(),
        ) matches Some((_, ops, _)) ==> ops.len() > 0),
        chain_from(s, q, Seq::empty(), Seq::empty(), Seq::empty(), Seq::empty()) is Some ==> chain_from(
            s,
            q,
            pairs_model(pairs),
            globals,
            Seq::empty(),
            Seq::empty(),
        ) == chain_from(s, q, Seq::empty(), Seq::empty(), Seq::empty(), Seq::empty()),
{
    let pm = pairs_model(pairs);
    if atom_end(s, q) matches Some(e) && e < s.len() && spec_is_op(s[e]) {
        lemma_chain_has_op(s, q, pm, globals);
    }
    if chain_from(s, q, Seq::empty(), Seq::empty(), Seq::empty(), Seq::empty()) is Some {
        lemma_literal_chain(s, q, pm, globals, Seq::empty(), Seq::empty());
    }
}

/// The type of the simple value written at `q` (see `expr_end`): that of the value of a chain;
/// `Str` for a string, `Int` or `Frac` for a number as it is written, and the type of the value
/// a variable names.
pub open spec fn expr_type(
    s: Seq<char>,
    q: int,
    env: Seq<(Seq<char>, TypeModel)>,
    genv: Seq<(Seq<char>, TypeModel)>,
) -> TypeModel {
    match atom_end(s, q) {
        Some(e) => if e < s.len() && spec_is_op(s[e]) {
            match chain_from(s, q, Seq::empty(), Seq::empty(), Seq::empty(), Seq::empty()) {
                Some((xs, ops, _)) => match eval_chain(xs, ops) {
                    Some(ChainValue::Num(f, _, _)) => if f {
                        TypeModel::Frac
                    } else {
                        TypeModel::Int
                    },
                    Some(ChainValue::Text(_)) => TypeModel::Str,
                    Some(ChainValue::List(_, t)) => TypeModel::Arr(Box::new(t)),
                    Some(ChainValue::Other(v)) => model_type_of(v),
                    None => TypeModel::Any,
                },
                None => TypeModel::Any,
            }
        } else if s[q] == '"' {
            TypeModel::Str
        } else if spec_is_numeric_char(s[q]) || s[q] == '+' || s[q] == '-' {
            let n = if spec_is_numeric_char(s[q]) {
                q
            } else {
                q + 1
            };
            match num_scan(s, n, false, false, Seq::empty(), Seq::empty()) {
                NumScan::Done(dec, _, _, _) => if dec {
                    TypeModel::Frac
                } else {
                    TypeModel::Int
                },
                _ => TypeModel::Int,
            }
        } else {
            match var_type(var_scan(s, q).0, s[q] == '@', env, genv) {
                Some(t) => t,
                None => TypeModel::Any,
            }
        },
        None => TypeModel::Any,
    }
}

/// The element type of an array whose elements have types `ts`, after elements whose types
/// combine to `t` (`any` telling whether `t` mentions `Any`): each element type is combined
/// with the current one by `model_most_specific` while it mentions `Any`, and must else equal
/// it; none when one does not fit.
pub open spec fn elems_type(t: TypeModel, any: bool, ts: Seq<TypeModel>) -> Option<TypeModel>
    decreases ts.len(),
{
    if ts.len() == 0 {
        Some(t)
    } else {
        let next = if any {
            model_most_specific(t, ts[0])
        } else if model_type_eq(t, ts[0]) {
            Some((t, false))
        } else {
            None
        };
        match next {
            Some((t2, any2)) => elems_type(t2, any2, ts.drop_first()),
            None => None,
        }
    }
}

/// The types of the values `vs`, in order.
pub open spec fn types_of(vs: Seq<ValueModel>) -> Seq<TypeModel> {
    Seq::new(vs.len(), |i: int| model_type_of(vs[i]))
}

/// One element of type `x` added to elements of type `t` (with `any` whether `t` still mentions
/// `Any`): the new type and flag, or `None` if it does not fit (see `elems_type`).
pub open spec fn elems_step(t: TypeModel, any: bool, x: TypeModel) -> Option<(TypeModel, bool)> {
    if any {
        model_most_specific(t, x)
    } else if model_type_eq(t, x) {
        Some((t, false))
    } else {
        None
    }
}

/// The type and flag after the element types `ts`, from `t` and `any` (see `elems_type`).
pub open spec fn elems_state(t: TypeModel, any: bool, ts: Seq<TypeModel>) -> Option<(TypeModel, bool)>
    decreases ts.len(),
{
    if ts.len() == 0 {
        Some((t, any))
    } else {
        match elems_step(t, any, ts[0]) {
            Some((t2, any2)) => elems_state(t2, any2, ts.drop_first()),
            None => None,
        }
    }
}

/// `elems_type` is the type that `elems_state` reaches.
proof fn lemma_elems_state_type(t: TypeModel, any: bool, ts: Seq<TypeModel>)
    ensures
        elems_type(t, any, ts) == match elems_state(t, any, ts) {
            Some((t2, _)) => Some(t2),
            None => None,
        },
    decreases ts.len(),
{
    if ts.len() > 0 {
        if let Some((t2, any2)) = elems_step(t, any, ts[0]) {
            lemma_elems_state_type(t2, any2, ts.drop_first());
        }
    }
}

/// Adding one element type at the end takes one more step from where the others led.
proof fn lemma_elems_state_push(t: TypeModel, any: bool, ts: Seq<TypeModel>, x: TypeModel)
    ensures
        elems_state(t, any, ts.push(x)) == match elems_state(t, any, ts) {
            Some((t1, a1)) => elems_step(t1, a1, x),
            None => None,
        },
    decreases ts.len(),
{
    if ts.len() == 0 {
        let s1 = ts.push(x);
        assert(s1.drop_first() =~= Seq::<TypeModel>::empty());
        assert(s1[0] == x);
        if let Some((t2, a2)) = elems_step(t, any, x) {
            assert(elems_state(t2, a2, s1.drop_first()) == Some((t2, a2)));
        }
    } else {
        assert(ts.push(x)[0] == ts[0]);
        assert(ts.push(x).drop_first() =~= ts.drop_first().push(x));
        if let Some((t2, any2)) = elems_step(t, any, ts[0]) {
            lemma_elems_state_push(t2, any2, ts.drop_first(), x);
        }
    }
}

/// Where the element types `ts` stop fitting (see `elems_type`), with `k` the index of the
/// first of them: the index of the element that does not fit, and the type of those before it.
pub open spec fn elems_mismatch(t: TypeModel, any: bool, ts: Seq<TypeModel>, k: int) -> Option<(int, TypeModel)>
    decreases ts.len(),
{
    if ts.len() == 0 {
        None
    } else {
        let next = if any {
            model_most_specific(t, ts[0])
        } else if model_type_eq(t, ts[0]) {
            Some((t, false))
        } else {
            None
        };
        match next {
            Some((t2, any2)) => elems_mismatch(t2, any2, ts.drop_first(), k + 1),
            None => Some((k, t)),
        }
    }
}

/// `v` is the value of the simple value written at `q` at nesting depth `d` (see
/// `simple_end`), with `pairs` the fields before it in its object and `globals` the global
/// variables: a tuple or array of the values written for its elements, an object of the
/// fields written in it (see `simple_obj_ok`), or else as `expr_value_ok` says.
pub open spec fn simple_value_ok(
    s: Seq<char>,
    q: int,
    pairs: Seq<(Seq<char>, ValueModel)>,
    globals: Seq<(Seq<char>, ValueModel)>,
    v: ValueModel,
    d: int,
) -> bool
    decreases v, 1int,
{
    let env = types_env(pairs);
    let genv = types_env(globals);
    if 0 <= q < s.len() && s[q] == '(' {
        match simple_elems(s, q + 1, ')', env, genv, d + 1) {
            Some((qs, _)) => match v {
                ValueModel::Tup(vs) => elems_values_ok(s, qs, pairs, globals, vs, d + 1),
                _ => false,
            },
            None => true,
        }
    } else if 0 <= q < s.len() && s[q] == '[' {
        match simple_elems(s, q + 1, ']', env, genv, d + 1) {
            Some((qs, _)) => match v {
                ValueModel::Arr(vs, t) => Some(t) == elems_type(TypeModel::Any, true, types_at(s, q + 1, ']', env, genv, d + 1))
                    && elems_values_ok(s, qs, pairs, globals, vs, d + 1),
                _ => false,
            },
            None => true,
        }
    } else if 0 <= q < s.len() && s[q] == '{' {
        match v {
            ValueModel::Obj(o) => simple_obj_ok(s, q, pairs, globals, o, d),
            _ => false,
        }
    } else {
        expr_value_ok(s, q, pairs, globals, v)
    }
}

/// `o` is the object written at `q` at nesting depth `d`: one of simple fields in braces (see
/// `body_fields_ok`), or one that a variable names (see `expr_value_ok`).
pub open spec fn simple_obj_ok(
    s: Seq<char>,
    q: int,
    pairs: Seq<(Seq<char>, ValueModel)>,
    globals: Seq<(Seq<char>, ValueModel)>,
    o: ObjModel,
    d: int,
) -> bool
    decreases o, s.len() + 1,
{
    if 0 <= q < s.len() && s[q] == '{' {
        proof {
            lemma_skip_ws_bounds(s, q + 1, false);
        }
        body_fields_ok(s, skip_ws_end(s, q + 1, false), 0, o, false, globals, d + 1)
    } else {
        expr_value_ok(s, q, pairs, globals, ValueModel::Obj(o))
    }
}

/// Skipping whitespace ends inside the text or at its end.
pub proof fn lemma_skip_ws_bounds(s: Seq<char>, i: int, c: bool)
    ensures
        0 <= skip_ws_end(s, i, c) <= s.len(),
        0 <= i <= s.len() ==> i <= skip_ws_end(s, i, c),
    decreases s.len() - i,
{
    if 0 <= i < s.len() {
        lemma_skip_ws_bounds(s, i + 1, true);
        lemma_skip_ws_bounds(s, i + 1, false);
    }
}

/// `vs` are the values of the simple values written at the starts `qs` at nesting depth `d`,
/// in order (see `simple_value_ok`).
pub open spec fn elems_values_ok(
    s: Seq<char>,
    qs: Seq<int>,
    pairs: Seq<(Seq<char>, ValueModel)>,
    globals: Seq<(Seq<char>, ValueModel)>,
    vs: Seq<ValueModel>,
    d: int,
) -> bool
    decreases vs, 0int,
{
    &&& vs.len() == qs.len()
    &&& forall|k: int| 0 <= k < vs.len() ==> simple_value_ok(s, #[trigger] qs[k], pairs, globals, vs[k], d)
}

/// From `i` on, inside an object at nesting depth `d`, with the first `k` pairs of `o` read and
/// its parent field read if `seen`, the simple fields written up to the closing `}` are the
/// rest of the pairs of `o`, each with its name and the value written for it, and its parent:
/// the object written for a parent field, if there is one.
pub open spec fn body_fields_ok(
    s: Seq<char>,
    i: int,
    k: nat,
    o: ObjModel,
    seen: bool,
    globals: Seq<(Seq<char>, ValueModel)>,
    d: int,
) -> bool
    decreases o, s.len() - i,
{
    let ps = o.pairs;
    if !(0 <= i < s.len()) {
        false
    } else if s[i] == '}' {
        k == ps.len() && (seen <==> o.parent is Some)
    } else {
        match simple_field(s, i, types_env(ps.take(k as int)), types_env(globals), Some('}'), d) {
            Some((n, q, e)) => {
                let next = skip_ws_end(s, e, false);
                if i < next < s.len() && !(n == seq!['^'] && seen) {
                    if n == seq!['^'] {
                        match o.parent {
                            Some(po) => simple_obj_ok(s, q, ps.take(k as int), globals, *po, d) && body_fields_ok(
                                s,
                                next,
                                k,
                                o,
                                true,
                                globals,
                                d,
                            ),
                            None => false,
                        }
                    } else {
                        &&& k < ps.len()
                        &&& ps[k as int].0 == n
                        &&& simple_value_ok(s, q, ps.take(k as int), globals, ps[k as int].1, d)
                        &&& body_fields_ok(s, next, k + 1, o, seen, globals, d)
                    }
                } else {
                    false
                }
            },
            None => false,
        }
    }
}

/// The value of a simple value has the type that `simple_type` gives.
proof fn lemma_simple_type(
    s: Seq<char>,
    q: int,
    pairs: Seq<(Seq<char>, ValueModel)>,
    globals: Seq<(Seq<char>, ValueModel)>,
    v: ValueModel,
    d: int,
)
    requires
        0 <= q < s.len(),
        simple_end(s, q, types_env(pairs), types_env(globals), d) is Some,
        starts_variable(s[q]) ==> var_type(var_scan(s, q).0, s[q] == '@', types_env(pairs), types_env(globals)) is Some,
        simple_value_ok(s, q, pairs, globals, v, d),
    ensures
        model_type_of(v) == simple_type(s, q, types_env(pairs), types_env(globals), d),
    decreases v,
{
    let env = types_env(pairs);
    let genv = types_env(globals);
    if s[q] == '(' {
        let (qs, _) = simple_elems(s, q + 1, ')', env, genv, d + 1)->0;
        let vs = v->Tup_0;
        lemma_simple_elems_all(s, q + 1, ')', env, genv, d + 1);
        lemma_types_at(s, q + 1, ')', env, genv, d + 1);
        let ts = types_at(s, q + 1, ')', env, genv, d + 1);
        assert forall|k: int| 0 <= k < vs.len() implies model_type_of(vs[k]) == ts[k] by {
            assert(simple_value_ok(s, qs[k], pairs, globals, vs[k], d + 1));
            lemma_simple_type(s, qs[k], pairs, globals, vs[k], d + 1);
        }
        assert(model_type_of(v)->Tup_0 =~= ts);
    } else if s[q] != '[' && s[q] != '{' {
        lemma_var_type(var_scan(s, q).0, s[q] == '@', pairs, globals);
    }
}

/// From `i` on, the text is a list of simple fields (see `simple_field`) with distinct names
/// and at most one parent field, after the fields `env`, the globals `genv` and a parent field
/// if `seen`, in an object without braces (at nesting depth one).
pub open spec fn simple_text(
    s: Seq<char>,
    i: int,
    env: Seq<(Seq<char>, TypeModel)>,
    genv: Seq<(Seq<char>, TypeModel)>,
    seen: bool,
) -> bool
    decreases s.len() - i,
{
    if i < 0 || i >= s.len() {
        true
    } else {
        match simple_field(s, i, env, genv, None, 1) {
            Some((n, q, e)) => {
                let next = skip_ws_end(s, e, false);
                if i < next <= s.len() && !(n == seq!['^'] && seen) {
                    let t = simple_type(s, q, env, genv, 1);
                    if n == seq!['^'] {
                        simple_text(s, next, env, genv, true)
                    } else if s[i] == '@' {
                        simple_text(s, next, env, genv.push((n, t)), seen)
                    } else {
                        simple_text(s, next, env.push((n, t)), genv, seen)
                    }
                } else {
                    false
                }
            },
            None => false,
        }
    }
}

/// From `i` on, with the first `k` pairs of `ps` and the first `j` globals of `gs` read, and
/// the parent field if `seen`, the simple fields of the text are the rest of `ps` and of `gs`,
/// each with its name and the value written for it, and `parent` the object written for a
/// parent field, if there is one.
pub open spec fn simple_fields_ok(
    s: Seq<char>,
    i: int,
    k: nat,
    ps: Seq<(Seq<char>, ValueModel)>,
    j: nat,
    gs: Seq<(Seq<char>, ValueModel)>,
    seen: bool,
    parent: Option<Box<ObjModel>>,
) -> bool
    decreases s.len() - i,
{
    if i < 0 || i >= s.len() {
        k == ps.len() && j == gs.len() && (seen <==> parent is Some)
    } else {
        match simple_field(s, i, types_env(ps.take(k as int)), types_env(gs.take(j as int)), None, 1) {
            Some((n, q, e)) => {
                let next = skip_ws_end(s, e, false);
                if i < next <= s.len() && !(n == seq!['^'] && seen) {
                    if n == seq!['^'] {
                        match parent {
                            Some(po) => simple_obj_ok(s, q, ps.take(k as int), gs.take(j as int), *po, 1)
                                && simple_fields_ok(s, next, k, ps, j, gs, true, parent),
                            None => false,
                        }
                    } else if s[i] == '@' {
                        &&& j < gs.len()
                        &&& gs[j as int].0 == n
                        &&& simple_value_ok(s, q, ps.take(k as int), gs.take(j as int), gs[j as int].1, 1)
                        &&& simple_fields_ok(s, next, k, ps, j + 1, gs, seen, parent)
                    } else {
                        &&& k < ps.len()
                        &&& ps[k as int].0 == n
                        &&& simple_value_ok(s, q, ps.take(k as int), gs.take(j as int), ps[k as int].1, 1)
                        &&& simple_fields_ok(s, next, k + 1, ps, j, gs, seen, parent)
                    }
                } else {
                    false
                }
            },
            None => false,
        }
    }
}

/// A number written at `p`, after an optional sign, as a number of a chain: an integer, or a
/// fraction as its digits give it (see `numeric_value`); and where it ends.
pub open spec fn number_literal(s: Seq<char>, p: int) -> Option<((bool, int, int), int)> {
    if 0 <= p < s.len() && (s[p] == '+' || s[p] == '-') {
        match unsigned_number(s, p + 1) {
            Some((x, e)) => Some((if s[p] == '-' { (x.0, -x.1, x.2) } else { x }, e)),
            None => None,
        }
    } else {
        unsigned_number(s, p)
    }
}

/// A number written at `p` without a sign (see `number_literal`).
pub open spec fn unsigned_number(s: Seq<char>, p: int) -> Option<((bool, int, int), int)> {
    if 0 <= p < s.len() && spec_is_numeric_char(s[p]) {
        match num_scan(s, p, false, false, Seq::empty(), Seq::empty()) {
            NumScan::Done(dec, s1, s2, e) => if dec {
                if s1.len() == 0 && s2.len() == 0 {
                    None
                } else {
                    let t = trim_zeros(s2);
                    let k: nat = if t.len() == 0 { 1 } else { t.len() };
                    Some(((true, decimal_value(s1) as int * pow(10, k) + decimal_value(t) as int, pow(10, k)), e))
                }
            } else if s1.len() > 0 {
                Some((int_num(decimal_value(s1) as int), e))
            } else {
                None
            },
            NumScan::Bad(_, _) => None,
        }
    } else {
        None
    }
}

/// What reading the number at `p` gives is the number of a chain that `unsigned_number` gives
/// for it, with a sign `op` applied.
proof fn lemma_number_read(
    s: Seq<char>,
    p: int,
    line: usize,
    col: usize,
    op: UnaryOp,
    r: Result<Value, ParseError>,
    end: int,
)
    requires
        unsigned_number(s, p) is Some,
        signed_numeric_ok(s, p, line, col, op, r, end),
        r matches Ok(v) ==> wf_value(v@),
    ensures
        ({
            let (x, e) = unsigned_number(s, p)->0;
            let y = if op == UnaryOp::Minus { (x.0, -x.1, x.2) } else { x };
            r matches Ok(v) && num_value_ok(v@, y) && end == e
        }),
{
    let (x, e) = unsigned_number(s, p)->0;
    let v = r->Ok_0;
    if let NumScan::Done(dec, s1, s2, _) = num_scan(s, p, false, false, Seq::empty(), Seq::empty()) {
        if dec {
            let t = trim_zeros(s2);
            let k: nat = if t.len() == 0 { 1 } else { t.len() };
            let big = decimal_value(s1) as int * pow(10, k) + decimal_value(t) as int;
            vstd::arithmetic::power::lemma_pow_positive(10, k);
            assert(x == (true, big, pow(10, k)));
            if op == UnaryOp::Minus {
                let (n, m) = (v@->Frac_0, v@->Frac_1);
                assert(signed_value(op, v@) == ValueModel::Frac(-n, m));
                assert((-n) * pow(10, k) == big * m);
                assert(n * pow(10, k) == (-big) * m) by (nonlinear_arith)
                    requires
                        (-n) * pow(10, k) == big * m,
                ;
            } else {
                assert(signed_value(op, v@) == v@);
            }
        } else {
            if op == UnaryOp::Minus {
                assert(v@ is Int);
            }
        }
    }
}

/// An unsigned number read as a value, as `numeric_result_ok` says, is one with a plus sign.
proof fn lemma_unsigned_read(s: Seq<char>, p: int, line: usize, col: usize, r: Result<Value, ParseError>, end: int)
    requires
        unsigned_number(s, p) is Some,
        numeric_result_ok(s, p, line, col, r, end),
    ensures
        signed_numeric_ok(s, p, line, col, UnaryOp::Plus, r, end),
{
}

/// The operands and operators of a chain `x0 op1 x1 ... opn xn` of operands (see `operand`)
/// joined by `+`, `-`, `*`, `/` and `%` that starts at `p`, after the operands `xs` and
/// operators `ops` already read; and where the chain ends.
pub open spec fn chain_from(
    s: Seq<char>,
    p: int,
    pairs: Seq<(Seq<char>, ValueModel)>,
    globals: Seq<(Seq<char>, ValueModel)>,
    xs: Seq<ChainValue>,
    ops: Seq<BinaryOp>,
) -> Option<(Seq<ChainValue>, Seq<BinaryOp>, int)>
    decreases s.len() - p, 1nat,
{
    match operand(s, p, pairs, globals) {
        Some((x, e)) => if p < e <= s.len() {
            chain_after(s, e, pairs, globals, xs.push(x), ops)
        } else {
            None
        },
        None => None,
    }
}

/// An operand of a chain written at `p`: a number (see `number_literal`), a string, or a
/// variable path (see `var_path`) that stands for a value, with `pairs` the fields and
/// `globals` the global variables (a fraction with a positive denominator); its value in the
/// chain and where it ends.
pub open spec fn operand(s: Seq<char>, p: int, pairs: Seq<(Seq<char>, ValueModel)>, globals: Seq<(Seq<char>, ValueModel)>) -> Option<(ChainValue, int)> {
    match number_literal(s, p) {
        Some((x, e)) => Some((ChainValue::Num(x.0, x.1, x.2), e)),
        None => if 0 <= p < s.len() && s[p] == '"' {
            match scan_str(s, p + 1) {
                StrScan::Done(text, e) => Some((ChainValue::Text(text), e)),
                _ => None,
            }
        } else if 0 <= p < s.len() && starts_variable(s[p]) {
            match var_path(s, p, pairs, globals) {
                Some((v, e)) => match v {
                    ValueModel::Int(i) => Some((ChainValue::Num(false, i, 1), e)),
                    ValueModel::Frac(x, y) => if y > 0 {
                        Some((ChainValue::Num(true, x, y), e))
                    } else {
                        None
                    },
                    ValueModel::Str(text) => Some((ChainValue::Text(text), e)),
                    ValueModel::Arr(vs, t) => Some((ChainValue::List(vs, t), e)),
                    _ => Some((ChainValue::Other(v), e)),
                },
                None => None,
            }
        } else {
            None
        },
    }
}

/// The rest of a chain after an operand that ends at `e`: another operator and operand, or
/// the end of the chain.
pub open spec fn chain_after(
    s: Seq<char>,
    e: int,
    pairs: Seq<(Seq<char>, ValueModel)>,
    globals: Seq<(Seq<char>, ValueModel)>,
    xs: Seq<ChainValue>,
    ops: Seq<BinaryOp>,
) -> Option<(Seq<ChainValue>, Seq<BinaryOp>, int)>
    decreases s.len() - e, 0nat,
{
    if 0 <= e < s.len() && spec_is_op(s[e]) {
        chain_from(s, e + 1, pairs, globals, xs, ops.push(BinaryOp::spec_get_op(s[e]).unwrap()))
    } else {
        Some((xs, ops, e))
    }
}

/// A number as a chain computes it: whether it is a fraction, then a numerator and a non-zero
/// denominator of its value (one for an integer).
pub open spec fn num_value_ok(v: ValueModel, n: (bool, int, int)) -> bool {
    if n.0 {
        &&& n.2 != 0
        &&& v matches ValueModel::Frac(x, y) && y > 0 && x * n.2 == n.1 * y
    } else {
        n.2 == 1 && v == ValueModel::Int(n.1)
    }
}

/// The integer `x` as a number of a chain.
pub open spec fn int_num(x: int) -> (bool, int, int) {
    (false, x, 1)
}

/// `a op b` on numbers of a chain, as `binary_op_on_values` computes it: on two integers an
/// integer, or a fraction for `/`; with a fraction, a fraction. None when dividing by zero or
/// taking `%` by zero or of a fraction; `%` on integers has the sign of `a`.
pub open spec fn num_op(a: (bool, int, int), op: BinaryOp, b: (bool, int, int)) -> Option<(bool, int, int)> {
    if !a.0 && !b.0 {
        match op {
            BinaryOp::Plus => Some(int_num(a.1 + b.1)),
            BinaryOp::Minus => Some(int_num(a.1 - b.1)),
            BinaryOp::Mult => Some(int_num(a.1 * b.1)),
            BinaryOp::Div => if b.1 == 0 {
                None
            } else {
                Some((true, a.1, b.1))
            },
            BinaryOp::Mod => if b.1 == 0 {
                None
            } else {
                Some(int_num(trunc_rem(a.1, b.1)))
            },
        }
    } else {
        match op {
            BinaryOp::Plus => Some((true, a.1 * b.2 + b.1 * a.2, a.2 * b.2)),
            BinaryOp::Minus => Some((true, a.1 * b.2 + (-1) * (b.1 * a.2), a.2 * b.2)),
            BinaryOp::Mult => Some((true, a.1 * b.1, a.2 * b.2)),
            BinaryOp::Div => if b.1 == 0 {
                None
            } else {
                Some((true, a.1 * b.2, a.2 * b.1))
            },
            BinaryOp::Mod => None,
        }
    }
}

/// A value in a chain of operations: a number (whether it is a fraction, then a numerator and a
/// non-zero denominator of its value, see `num_value_ok`), a text, the elements and element
/// type of an array, or another value: no number, string or array.
pub ghost enum ChainValue {
    Num(bool, int, int),
    Text(Seq<char>),
    List(Seq<ValueModel>, TypeModel),
    Other(ValueModel),
}

/// `v` is the value `c` of a chain stands for.
pub open spec fn chain_value_ok(v: ValueModel, c: ChainValue) -> bool {
    match c {
        ChainValue::Num(f, n, d) => num_value_ok(v, (f, n, d)),
        ChainValue::Text(t) => v == ValueModel::Str(t),
        ChainValue::List(vs, t) => v == ValueModel::Arr(vs, t),
        ChainValue::Other(w) => v == w && !(w is Int || w is Frac || w is Str || w is Arr),
    }
}

/// `a op b` on values of a chain, as `binary_op_on_values` computes it: on numbers as `num_op`
/// says; `+` on texts joins them, and on arrays joins their elements, with the most specific
/// of their types (see `model_most_specific`) if they have one; none for anything else.
pub open spec fn chain_op(a: ChainValue, op: BinaryOp, b: ChainValue) -> Option<ChainValue> {
    match (a, b) {
        (ChainValue::Num(f1, n1, d1), ChainValue::Num(f2, n2, d2)) => match num_op((f1, n1, d1), op, (f2, n2, d2)) {
            Some((f, n, d)) => Some(ChainValue::Num(f, n, d)),
            None => None,
        },
        (ChainValue::Text(x), ChainValue::Text(y)) => if op == BinaryOp::Plus {
            Some(ChainValue::Text(x + y))
        } else {
            None
        },
        (ChainValue::List(xs, t), ChainValue::List(ys, u)) => if op == BinaryOp::Plus {
            match model_most_specific(TypeModel::Arr(Box::new(t)), TypeModel::Arr(Box::new(u))) {
                Some((TypeModel::Arr(w), _)) => Some(ChainValue::List(xs + ys, *w)),
                _ => None,
            }
        } else {
            None
        },
        _ => None,
    }
}

/// What `binary_op_on_values` gives on two values of a chain is what `chain_op` computes.
proof fn lemma_chain_op(
    v1: ValueModel,
    c1: ChainValue,
    v2: ValueModel,
    c2: ChainValue,
    op: BinaryOp,
    line: usize,
    col: usize,
    r: Result<Value, ParseError>,
)
    requires
        chain_value_ok(v1, c1),
        chain_value_ok(v2, c2),
        binary_result_ok(v1, v2, op, line, col, r),
    ensures
        match chain_op(c1, op, c2) {
            Some(c3) => r matches Ok(x) && chain_value_ok(x@, c3),
            None => r is Err,
        },
{
    if let (ChainValue::Num(f1, n1, d1), ChainValue::Num(f2, n2, d2)) = (c1, c2) {
        lemma_num_op(v1, (f1, n1, d1), v2, (f2, n2, d2), op, line, col, r);
    }
}

/// Groups a chain into terms from operator `i` on: `*`, `/` and `%` apply to the last term at
/// once, `+` and `-` start a new term; `ts` and `lops` hold the terms and the operators
/// between them so far. None if an operation fails (see `chain_op`).
pub open spec fn chain_terms(
    xs: Seq<ChainValue>,
    ops: Seq<BinaryOp>,
    i: nat,
    ts: Seq<ChainValue>,
    lops: Seq<BinaryOp>,
) -> Option<(Seq<ChainValue>, Seq<BinaryOp>)>
    decreases ops.len() - i,
{
    if i >= ops.len() {
        Some((ts, lops))
    } else if ops[i as int].spec_is_priority() {
        match chain_op(ts.last(), ops[i as int], xs[i + 1int]) {
            Some(t) => chain_terms(xs, ops, i + 1, ts.update(ts.len() - 1, t), lops),
            None => None,
        }
    } else {
        chain_terms(xs, ops, i + 1, ts.push(xs[i + 1int]), lops.push(ops[i as int]))
    }
}

/// Applies the operators between terms from the `k`-th on, from left to right, to `acc`.
pub open spec fn fold_terms(acc: Option<ChainValue>, ts: Seq<ChainValue>, lops: Seq<BinaryOp>, k: nat) -> Option<
    ChainValue,
>
    decreases lops.len() - k,
{
    if k >= lops.len() {
        acc
    } else {
        match acc {
            Some(a) => fold_terms(chain_op(a, lops[k as int], ts[k + 1int]), ts, lops, k + 1),
            None => None,
        }
    }
}

/// Once an operation fails, the rest of the chain fails too.
proof fn lemma_fold_none(ts: Seq<ChainValue>, lops: Seq<BinaryOp>, k: nat)
    ensures
        fold_terms(None, ts, lops, k) is None,
    decreases lops.len() - k,
{
}

/// The value of `xs[0] ops[0] xs[1] ...` with `*`, `/` and `%` binding tighter than `+` and
/// `-`, and operators of one level applied from left to right; none if an operation fails.
pub open spec fn eval_chain(xs: Seq<ChainValue>, ops: Seq<BinaryOp>) -> Option<ChainValue> {
    match chain_terms(xs, ops, 0, seq![xs[0]], Seq::empty()) {
        Some((ts, lops)) => fold_terms(Some(ts[0]), ts, lops, 0),
        None => None,
    }
}

/// A chain read after operands `xs` and operators `ops` keeps them as its start, and has one
/// operand more than operators.
proof fn lemma_chain_from(
    s: Seq<char>,
    p: int,
    pairs: Seq<(Seq<char>, ValueModel)>,
    globals: Seq<(Seq<char>, ValueModel)>,
    xs: Seq<ChainValue>,
    ops: Seq<BinaryOp>,
)
    requires
        xs.len() == ops.len(),
    ensures
        chain_from(s, p, pairs, globals, xs, ops) matches Some((xs2, ops2, _)) ==> xs2.len() == ops2.len() + 1 && xs2.len()
            > xs.len() && xs2.take(xs.len() as int) == xs && ops2.take(ops.len() as int) == ops,
    decreases s.len() - p, 1nat,
{
    if let Some((x, e)) = operand(s, p, pairs, globals) {
        if p < e <= s.len() {
            lemma_chain_after(s, e, pairs, globals, xs.push(x), ops);
            if let Some((xs2, ops2, _)) = chain_from(s, p, pairs, globals, xs, ops) {
                assert(xs2.take(xs.len() as int) =~= xs2.take(xs.len() + 1int).take(xs.len() as int));
                assert(xs.push(x).take(xs.len() as int) =~= xs);
            }
        }
    }
}

/// The pair of `lemma_chain_from`, after an operand.
proof fn lemma_chain_after(
    s: Seq<char>,
    e: int,
    pairs: Seq<(Seq<char>, ValueModel)>,
    globals: Seq<(Seq<char>, ValueModel)>,
    xs: Seq<ChainValue>,
    ops: Seq<BinaryOp>,
)
    requires
        xs.len() == ops.len() + 1,
    ensures
        chain_after(s, e, pairs, globals, xs, ops) matches Some((xs2, ops2, _)) ==> xs2.len() == ops2.len() + 1 && xs2.len()
            >= xs.len() && xs2.take(xs.len() as int) == xs && ops2.take(ops.len() as int) == ops,
    decreases s.len() - e, 0nat,
{
    if 0 <= e < s.len() && spec_is_op(s[e]) {
        let op = BinaryOp::spec_get_op(s[e]).unwrap();
        lemma_chain_from(s, e + 1, pairs, globals, xs, ops.push(op));
        if let Some((xs2, ops2, _)) = chain_after(s, e, pairs, globals, xs, ops) {
            assert(ops2.take(ops.len() as int) =~= ops2.take(ops.len() + 1int).take(ops.len() as int));
            assert(ops.push(op).take(ops.len() as int) =~= ops);
        }
    } else {
        assert(xs.take(xs.len() as int) =~= xs);
        assert(ops.take(ops.len() as int) =~= ops);
    }
}

/// How a chain starts: with the operand at `p`, after which the rest of the chain is read.
proof fn lemma_chain_start(s: Seq<char>, p: int, pairs: Seq<(Seq<char>, ValueModel)>, globals: Seq<(Seq<char>, ValueModel)>) -> (e: int)
    requires
        chain_from(s, p, pairs, globals, Seq::empty(), Seq::empty()) is Some,
    ensures
        ({
            let (xs, ops, end) = chain_from(s, p, pairs, globals, Seq::empty(), Seq::empty())->0;
            &&& operand(s, p, pairs, globals) == Some((xs[0], e))
            &&& p < e <= s.len()
            &&& xs.len() == ops.len() + 1
            &&& chain_after(s, e, pairs, globals, xs.take(1), ops.take(0)) == chain_from(s, p, pairs, globals, Seq::empty(), Seq::empty())
        }),
{
    let (x, e) = operand(s, p, pairs, globals)->0;
    let xs0 = Seq::<ChainValue>::empty().push(x);
    assert(chain_from(s, p, pairs, globals, Seq::empty(), Seq::empty()) == chain_after(s, e, pairs, globals, xs0, Seq::empty()));
    lemma_chain_after(s, e, pairs, globals, xs0, Seq::empty());
    let (xs, ops, end) = chain_from(s, p, pairs, globals, Seq::empty(), Seq::empty())->0;
    assert(xs.take(1) =~= xs0);
    assert(xs[0] == xs.take(1)[0]);
    assert(ops.take(0) =~= Seq::<BinaryOp>::empty());
    e
}

/// One step along a chain: after `k + 1` operands and `k` operators, an operator at `e` is the
/// chain's `k`-th operator, and the operand after it is the chain's next one.
proof fn lemma_chain_step(
    s: Seq<char>,
    e: int,
    pairs: Seq<(Seq<char>, ValueModel)>,
    globals: Seq<(Seq<char>, ValueModel)>,
    xs: Seq<ChainValue>,
    ops: Seq<BinaryOp>,
    end: int,
    k: nat,
) -> (e2: int)
    requires
        k + 1 <= xs.len(),
        xs.len() == ops.len() + 1,
        chain_after(s, e, pairs, globals, xs.take(k + 1int), ops.take(k as int)) == Some((xs, ops, end)),
        0 <= e < s.len(),
        spec_is_op(s[e]),
    ensures
        k < ops.len(),
        Some(ops[k as int]) == BinaryOp::spec_get_op(s[e]),
        operand(s, e + 1, pairs, globals) == Some((xs[k + 1int], e2)),
        e + 1 < e2 <= s.len(),
        chain_after(s, e2, pairs, globals, xs.take(k + 2int), ops.take(k + 1int)) == Some((xs, ops, end)),
{
    let op = BinaryOp::spec_get_op(s[e]).unwrap();
    let xs1 = xs.take(k + 1int);
    let ops1 = ops.take(k as int);
    assert(chain_after(s, e, pairs, globals, xs1, ops1) == chain_from(s, e + 1, pairs, globals, xs1, ops1.push(op)));
    let (x, e2) = operand(s, e + 1, pairs, globals)->0;
    assert(chain_from(s, e + 1, pairs, globals, xs1, ops1.push(op)) == chain_after(s, e2, pairs, globals, xs1.push(x), ops1.push(op)));
    lemma_chain_after(s, e2, pairs, globals, xs1.push(x), ops1.push(op));
    assert(xs.take(k + 2int) =~= xs1.push(x));
    assert(ops.take(k + 1int) =~= ops1.push(op));
    assert(xs[k + 1int] == xs.take(k + 2int)[k + 1int]);
    assert(ops[k as int] == ops.take(k + 1int)[k as int]);
    e2
}

/// Where a chain stops: with no operator at `e`, all its operands and operators were read.
proof fn lemma_chain_stop(
    s: Seq<char>,
    e: int,
    pairs: Seq<(Seq<char>, ValueModel)>,
    globals: Seq<(Seq<char>, ValueModel)>,
    xs: Seq<ChainValue>,
    ops: Seq<BinaryOp>,
    end: int,
    k: nat,
)
    requires
        k + 1 <= xs.len(),
        xs.len() == ops.len() + 1,
        chain_after(s, e, pairs, globals, xs.take(k + 1int), ops.take(k as int)) == Some((xs, ops, end)),
        !(0 <= e < s.len() && spec_is_op(s[e])),
    ensures
        k == ops.len(),
        end == e,
{
    assert(xs.take(k + 1int).len() == xs.len());
}

/// A number or variable followed by an operator starts a chain only with that operator in it.
proof fn lemma_chain_has_op(s: Seq<char>, q: int, pairs: Seq<(Seq<char>, ValueModel)>, globals: Seq<(Seq<char>, ValueModel)>)
    requires
        0 <= q < s.len(),
        atom_end(s, q) matches Some(e) && e < s.len() && spec_is_op(s[e]),
    ensures
        chain_from(s, q, pairs, globals, Seq::empty(), Seq::empty()) matches Some((_, ops, _)) ==> ops.len() > 0,
{
    if let Some((x, e1)) = operand(s, q, pairs, globals) {
        if q < e1 <= s.len() {
            assert(Some(e1) == atom_end(s, q));
            let op = BinaryOp::spec_get_op(s[e1]).unwrap();
            lemma_chain_from(s, e1 + 1, pairs, globals, Seq::empty().push(x), Seq::empty().push(op));
        }
    }
}

/// An operand starts with a digit, a sign before a digit, a quote, or a variable.
proof fn lemma_operand_start(s: Seq<char>, q: int, pairs: Seq<(Seq<char>, ValueModel)>, globals: Seq<(Seq<char>, ValueModel)>)
    requires
        operand(s, q, pairs, globals) is Some,
    ensures
        0 <= q < s.len(),
        spec_is_numeric_char(s[q]) || signed_start(s, q) || starts_variable(s[q]) || s[q] == '"',
{
}

/// A variable path that stands for a value with no fields and no globals (one that starts with
/// a word such as `true`) stands for the same whatever the fields and the globals.
proof fn lemma_var_path_env(
    s: Seq<char>,
    p: int,
    pairs: Seq<(Seq<char>, ValueModel)>,
    globals: Seq<(Seq<char>, ValueModel)>,
)
    requires
        var_path(s, p, Seq::empty(), Seq::empty()) is Some,
    ensures
        var_path(s, p, pairs, globals) == var_path(s, p, Seq::empty(), Seq::empty()),
    decreases s.len() - p,
{
    let (name, e) = var_scan(s, p);
    let g = p < s.len() && s[p] == '@';
    assert(first_value(Seq::empty(), name, 0) is None);
    assert(var_base(name, g, pairs, globals) == var_base(name, g, Seq::empty(), Seq::empty()));
    if !(e >= s.len() || (s[e] != '.' && spec_is_value_end_char(s[e]))) {
        if let Some(ValueModel::Obj(o)) = var_base(name, g, Seq::empty(), Seq::empty()) {
            if s[e + 1] != '@' {
                lemma_var_path_env(s, e + 1, o.pairs, globals);
            }
        }
    }
}

/// A chain that reads with no pairs (one of written numbers, strings and words
/// only) is the same whatever the pairs and globals.
proof fn lemma_literal_chain(
    s: Seq<char>,
    p: int,
    pairs: Seq<(Seq<char>, ValueModel)>,
    globals: Seq<(Seq<char>, ValueModel)>,
    xs: Seq<ChainValue>,
    ops: Seq<BinaryOp>,
)
    requires
        chain_from(s, p, Seq::empty(), Seq::empty(), xs, ops) is Some,
    ensures
        chain_from(s, p, pairs, globals, xs, ops) == chain_from(s, p, Seq::empty(), Seq::empty(), xs, ops),
    decreases s.len() - p,
{
    let (x, e) = operand(s, p, Seq::empty(), Seq::empty())->0;
    if 0 <= p < s.len() && var_path(s, p, Seq::empty(), Seq::empty()) is Some {
        lemma_var_path_env(s, p, pairs, globals);
    }
    if 0 <= e < s.len() && spec_is_op(s[e]) {
        lemma_literal_chain(s, e + 1, pairs, globals, xs.push(x), ops.push(BinaryOp::spec_get_op(s[e]).unwrap()));
    }
}

/// What `binary_op_on_values` gives on two numbers of a chain is what `num_op` computes.
proof fn lemma_num_op(
    v1: ValueModel,
    n1: (bool, int, int),
    v2: ValueModel,
    n2: (bool, int, int),
    op: BinaryOp,
    line: usize,
    col: usize,
    r: Result<Value, ParseError>,
)
    requires
        num_value_ok(v1, n1),
        num_value_ok(v2, n2),
        binary_result_ok(v1, v2, op, line, col, r),
    ensures
        match num_op(n1, op, n2) {
            Some(n3) => r matches Ok(x) && num_value_ok(x@, n3),
            None => r is Err,
        },
{
    if n1.0 || n2.0 {
        let (x1, y1) = match v1 {
            ValueModel::Frac(x, y) => (x, y),
            _ => (n1.1, 1int),
        };
        let (x2, y2) = match v2 {
            ValueModel::Frac(x, y) => (x, y),
            _ => (n2.1, 1int),
        };
        assert(x1 * n1.2 == n1.1 * y1 && y1 > 0 && n1.2 != 0);
        assert(x2 * n2.2 == n2.1 * y2 && y2 > 0 && n2.2 != 0);
        assert(n1.2 * n2.2 != 0) by (nonlinear_arith)
            requires
                n1.2 != 0,
                n2.2 != 0,
        ;
        assert((x2 == 0) == (n2.1 == 0)) by (nonlinear_arith)
            requires
                x2 * n2.2 == n2.1 * y2,
                y2 > 0,
                n2.2 != 0,
        ;
        if let Ok(x) = r {
            if let ValueModel::Frac(n, m) = x@ {
                match op {
                    BinaryOp::Plus => {
                        assert(x1 * y2 + x2 * y1 == x1 * y2 + 1 * (x2 * y1));
                        lemma_ratio_add(x1, y1, n1.1, n1.2, x2, y2, n2.1, n2.2, n, m, 1);
                    },
                    BinaryOp::Minus => {
                        assert(x1 * y2 - x2 * y1 == x1 * y2 + (-1) * (x2 * y1));
                        lemma_ratio_add(x1, y1, n1.1, n1.2, x2, y2, n2.1, n2.2, n, m, -1);
                    },
                    BinaryOp::Mult => {
                        lemma_ratio_mul(x1, y1, n1.1, n1.2, x2, y2, n2.1, n2.2, n, m);
                    },
                    BinaryOp::Div => {
                        lemma_ratio_div(x1, y1, n1.1, n1.2, x2, y2, n2.1, n2.2, n, m);
                        assert(n1.2 * n2.1 != 0) by (nonlinear_arith)
                            requires
                                n1.2 != 0,
                                n2.1 != 0,
                        ;
                    },
                    BinaryOp::Mod => {},
                }
            }
        }
    }
}

/// What parsing a chain of operands joined by operators at `p` gives, when one is there: its
/// value, with `*`, `/` and `%` applied before `+` and `-`, if a character that may end a value
/// follows it; an error where an operation fails (see `chain_op`).
pub open spec fn chain_result_ok(
    s: Seq<char>,
    p: int,
    pairs: Seq<(Seq<char>, ValueModel)>,
    globals: Seq<(Seq<char>, ValueModel)>,
    cur_brace: Option<char>,
    r: Result<Value, ParseError>,
    end: int,
) -> bool {
    match chain_from(s, p, pairs, globals, Seq::empty(), Seq::empty()) {
        Some((xs, ops, e)) => ops.len() > 0 ==> match eval_chain(xs, ops) {
            Some(n) => (r is Ok <==> value_end_ok(char_at(s, e), cur_brace)) && (r matches Ok(x) ==> chain_value_ok(
                x@,
                n,
            ) && end == e),
            None => r is Err,
        },
        None => true,
    }
}

/// If a tuple or array of simple elements (see `simple_elems`) or an object of simple fields
/// (see `simple_body`) starts at `p`, then, for an array, its element types fit, and an
/// operator follows it.
pub open spec fn op_follows_container(
    s: Seq<char>,
    p: int,
    depth: usize,
    env: Seq<(Seq<char>, TypeModel)>,
    genv: Seq<(Seq<char>, TypeModel)>,
) -> bool {
    &&& s[p] == '(' && depth < MAX_DEPTH ==> (simple_elems(s, p + 1, ')', env, genv, depth + 1) matches Some((_, cl))
        ==> cl + 1 < s.len() && spec_is_op(s[cl + 1]))
    &&& s[p] == '[' && depth < MAX_DEPTH ==> (simple_elems(s, p + 1, ']', env, genv, depth + 1) matches Some((qs, cl))
        ==> elems_type(TypeModel::Any, true, types_at(s, p + 1, ']', env, genv, depth + 1)) is Some && cl + 1 < s.len()
        && spec_is_op(s[cl + 1]))
    &&& s[p] == '{' && depth < MAX_DEPTH ==> (simple_body(s, skip_ws_end(s, p + 1, false), Seq::empty(), genv, false, depth
        + 1) matches Some(cl) ==> cl + 1 < s.len() && spec_is_op(s[cl + 1]))
}

/// If a single string, number or variable starts at `p`, an operator follows it.
pub open spec fn op_follows_atom(s: Seq<char>, p: int) -> bool {
    atom_end(s, p) matches Some(e) ==> e < s.len() && spec_is_op(s[e])
}

/// A character that can start a value.
pub open spec fn starts_value(c: char) -> bool {
    c == '"' || c == '{' || c == '[' || c == '(' || c == '<' || c == '+' || c == '-' || spec_is_numeric_char(c)
        || spec_is_valid_field_char(c, true) || c == '@'
}

/// A character that starts a variable: one that starts a value and no other kind of value.
pub open spec fn starts_variable(c: char) -> bool {
    !(c == '"' || c == '{' || c == '[' || c == '(' || c == '<' || c == '+' || c == '-' || spec_is_numeric_char(c))
        && (spec_is_valid_field_char(c, true) || c == '@')
}

/// The empty object that one of the words `Obj`, `Str`, `Arr` and `Tup` stands for.
fn keyword_value(token: u8) -> (r: Value)
    ensures
        r@ == keyword_model(token),
        wf_value(r@),
{
    let o = Obj::keyword(token);
    proof {
        assert(o@.pairs =~= Seq::empty());
        lemma_wf_pairs(o@.pairs, 0);
    }
    Value::Obj(o)
}

// Parses a variable name and gets a value from the corresponding variable.
#[verifier::rlimit(60)]
pub fn parse_variable(
    stream: &mut CharStream,
    obj_pairs: &Vec<Pair>,
    globals: &mut Vec<(String, Value)>,
    included: &mut Included,
    line: usize,
    col: usize,
    depth: usize,
    cur_brace: Option<char>,
) -> (r: Result<Value, ParseError>)
    requires
        old(stream).wf(),
        old(stream).pos < old(stream).contents@.len(),
        old(included).current_inactive(),
        depth_ok(*old(stream), depth),
        pair_values_wf(obj_pairs@),
        globals_wf(old(globals)@),
        old(included).values_wf(),
    ensures
        advanced(*old(stream), *final(stream)),
        r is Ok && (old(stream).peek_spec() matches Some(c) && (c == '@' || spec_is_valid_field_char(c, true)))
            ==> final(stream).pos > old(stream).pos,
        r matches Ok(v) ==> wf_value(v@),
        r is Ok ==> old(included).same_frame(final(included)),
        r is Ok ==> globals_wf(final(globals)@) && final(included).values_wf(),
        final(globals)@ == old(globals)@,
        *final(included) == *old(included),
        var_result_ok(
            old(stream).contents@,
            old(stream).pos as int,
            old(stream).file,
            pairs_model(obj_pairs@),
            named_values(old(globals)@),
            line,
            col,
            r,
            final(stream).pos as int,
        ),
    decreases old(included).fresh(), old(included).outside(), remaining(*old(stream)), 0nat,
{
    let mut var = String::new();
    let mut is_global = false;
    let mut dot = false;
    let mut dot_global = false;

    let ch = stream.peek().unwrap();
    if ch == '@' {
        let ch = stream.next().unwrap();
        is_global = true;
        string_push(&mut var, ch);
    }

    // Bulk-consume a run of valid variable characters.
    let ghost before_run = *stream;
    stream.take_field_chars(&mut var);
    proof {
        let s = before_run.contents@;
        let p = before_run.pos as int;
        if p < s.len() && is_field_run_char(s[p]) {
            lemma_field_chars_end_bound(s, p + 1);
        }
    }
    // Nothing was read only if the first character is '^', which cannot end a value.
    let ghost moved = stream.pos > old(stream).pos || stream.peek_spec() == Some('^');

    match stream.peek() {
        Some(c) => {
            if c == '.' {
                let _ = stream.next();
                match stream.peek() {
                    Some(c2) => {
                        if c2 == '@' {
                            dot_global = true;
                        } else if !(Obj::is_valid_field_char(c2, true) || is_numeric_char(c2)) {
                            return error(stream, ParseErrorKind::InvalidValueChar(c2, stream.line(), stream.col()));
                        }
                    },
                    None => return error(stream, ParseErrorKind::UnexpectedEnd(stream.line())),
                }
                dot = true;
            } else if !is_value_end_char(c) {
                return error(stream, ParseErrorKind::InvalidValueChar(c, stream.line(), stream.col()));
            }
        },
        None => {},
    }

    let name = var.as_str();
    let mut value = if str_equals(name, "null") {
        Value::Null
    } else if str_equals(name, "true") {
        Value::Bool(true)
    } else if str_equals(name, "false") {
        Value::Bool(false)
    } else if str_equals(name, "Obj") {
        // If we're being called by `parse_include`, signify that one of these keywords was found.
        keyword_value(1)
    } else if str_equals(name, "Str") {
        keyword_value(2)
    } else if str_equals(name, "Arr") {
        keyword_value(3)
    } else if str_equals(name, "Tup") {
        keyword_value(4)
    } else if str_equals(name, "@") {
        return error(stream, ParseErrorKind::InvalidValue(var, line, col));
    } else if is_global {
        // Global variable, get value from globals map.
        let ghost gm = named_values(globals@);
        match get_global(globals, name) {
            Some(value) => {
                proof {
                    let k = choose|i: int|
                        0 <= i < globals@.len() && (#[trigger] globals@[i]).0@ == name@ && globals@[i].1@ == value@
                            && forall|j: int| 0 <= j < i ==> (#[trigger] globals@[j]).0@ != name@;
                    assert forall|j: int| 0 <= j < k implies (#[trigger] gm[j]).0 != name@ by {
                        assert(gm[j].0 == globals@[j].0@);
                    }
                    lemma_first_value(gm, name@, 0, k);
                }
                value
            },
            None => {
                proof {
                    assert forall|j: int| 0 <= j < gm.len() implies (#[trigger] gm[j]).0 != name@ by {
                        assert(gm[j].0 == globals@[j].0@);
                    }
                    lemma_first_value(gm, name@, 0, gm.len() as int);
                }
                return error(stream, ParseErrorKind::GlobalNotFound(var, line, col));
            },
        }
    } else {
        // Regular variable, get value from the current Obj.
        let ghost pm = pairs_model(obj_pairs@);
        match find_pair(obj_pairs, name) {
            Some(value) => {
                proof {
                    let k = choose|i: int|
                        0 <= i < obj_pairs@.len() && (#[trigger] obj_pairs@[i]).0@ == name@ && obj_pairs@[i].1@ == value@
                            && forall|j: int| 0 <= j < i ==> (#[trigger] obj_pairs@[j]).0@ != name@;
                    assert forall|j: int| 0 <= j < k implies (#[trigger] pm[j]).0 != name@ by {
                        assert(pm[j].0 == obj_pairs@[j].0@);
                    }
                    lemma_first_value(pm, name@, 0, k);
                }
                value
            },
            None => {
                proof {
                    assert forall|j: int| 0 <= j < pm.len() implies (#[trigger] pm[j]).0 != name@ by {
                        assert(pm[j].0 == obj_pairs@[j].0@);
                    }
                    lemma_first_value(pm, name@, 0, pm.len() as int);
                }
                return error(stream, ParseErrorKind::VariableNotFound(var, line, col));
            },
        }
    };

    proof {
        assert(wf_value(value@));
    }
    if dot {
        let ghost vm = value@;
        value = match value {
            Value::Arr(arr) => {
                proof {
                    lemma_wf_elems(arr@.0, arr@.1, arr@.0.len());
                    let s = old(stream).contents@;
                    let p = old(stream).pos as int;
                    let e = var_scan(s, p).1;
                    let pm = pairs_model(obj_pairs@);
                    let gm = named_values(old(globals)@);
                    if var_path(s, p, pm, gm) is Some {
                        assert(stream.pos == e + 1);
                        assert(named_values(globals@) == gm);
                        assert(index_at(s, e + 1, pm, gm) is Some);
                    }
                }
                let (line2, col2) = (stream.line(), stream.col());
                let index_value = parse_value(
                    stream,
                    obj_pairs,
                    globals,
                    included,
                    line2,
                    col2,
                    depth + 1,
                    cur_brace,
                    false,
                )?;
                match index_value {
                    Value::Int(iv) => match iv.to_usize() {
                        Some(index) => match arr.get(index) {
                            Ok(v) => v,
                            Err(e) => return error(stream, ParseErrorKind::Over(e, line2, col2)),
                        },
                        None => return error(stream, ParseErrorKind::InvalidIndex(iv, line2, col2)),
                    },
                    _ => {
                        return error(stream, ParseErrorKind::ExpectedType(Type::Int, index_value.get_type(), line2, col2));
                    },
                }
            },
            Value::Tup(tup) => {
                proof {
                    lemma_wf_values(tup@, tup@.len());
                    let s = old(stream).contents@;
                    let p = old(stream).pos as int;
                    let e = var_scan(s, p).1;
                    let pm = pairs_model(obj_pairs@);
                    let gm = named_values(old(globals)@);
                    if var_path(s, p, pm, gm) is Some {
                        assert(stream.pos == e + 1);
                        assert(named_values(globals@) == gm);
                        assert(index_at(s, e + 1, pm, gm) is Some);
                    }
                }
                let (line2, col2) = (stream.line(), stream.col());
                let index_value = parse_value(
                    stream,
                    obj_pairs,
                    globals,
                    included,
                    line2,
                    col2,
                    depth + 1,
                    cur_brace,
                    false,
                )?;
                match index_value {
                    Value::Int(iv) => match iv.to_usize() {
                        Some(index) => match tup.get(index) {
                            Ok(v) => v,
                            Err(e) => return error(stream, ParseErrorKind::Over(e, line2, col2)),
                        },
                        None => return error(stream, ParseErrorKind::InvalidIndex(iv, line2, col2)),
                    },
                    _ => {
                        return error(stream, ParseErrorKind::ExpectedType(Type::Int, index_value.get_type(), line2, col2));
                    },
                }
            },
            Value::Obj(obj) => {
                let (line2, col2) = (stream.line(), stream.col());

                if dot_global {
                    return error(stream, ParseErrorKind::InvalidValueChar('@', line2, col2));
                }

                let fields = obj.pairs_ref();
                proof {
                    lemma_wf_pairs(obj@.pairs, obj@.pairs.len());
                    assert forall|i: int| 0 <= i < fields@.len() implies wf_value((#[trigger] fields@[i]).1@) by {
                        assert(obj@.pairs[i].1 == fields@[i].1@);
                    }
                }
                parse_variable(
                    stream,
                    fields,
                    globals,
                    included,
                    line2,
                    col2,
                    depth + 1,
                    cur_brace,
                )?
            },
            _ => return error(stream, ParseErrorKind::InvalidDot(value.get_type(), line, col)),
        };
    }

    Ok(value)
}

/// The text of a file included as a string.
pub fn parse_str_file(target: &IncludeTarget) -> (r: String)
    ensures
        r@ == target.contents@,
{
    target.contents.clone()
}

/// From `i` on, up to the end of the text, the text is a list of simple values (see
/// `simple_end`) at nesting depth `d` that read without error, with no fields and no globals
/// for a variable to name: where each value starts.
pub open spec fn simple_items(s: Seq<char>, i: int, d: int) -> Option<Seq<int>>
    decreases s.len() - i,
{
    let q = skip_ws_end(s, i, false);
    if !(0 <= i <= q) {
        None
    } else if q >= s.len() {
        Some(Seq::empty())
    } else {
        match simple_end(s, q, Seq::empty(), Seq::empty(), d) {
            Some(e) => if i < e <= s.len() && value_end_ok(char_at(s, e), None) && (starts_variable(s[q]) ==> var_type(
                var_scan(s, q).0,
                s[q] == '@',
                Seq::empty(),
                Seq::empty(),
            ) is Some) {
                match simple_items(s, e, d) {
                    Some(qs) => Some(seq![q] + qs),
                    None => None,
                }
            } else {
                None
            },
            None => None,
        }
    }
}

/// The types of the simple values written at the starts `qs` at nesting depth `d`, with no
/// fields and no globals for a variable to name (see `simple_type`).
pub open spec fn simple_types(s: Seq<char>, qs: Seq<int>, d: int) -> Seq<TypeModel> {
    Seq::new(qs.len(), |k: int| simple_type(s, qs[k], Seq::empty(), Seq::empty(), d))
}

/// One step of `simple_items` from `i`: at the first character after whitespace, either the
/// end of the text, or a simple value followed by the rest.
proof fn lemma_simple_items_at(s: Seq<char>, i: int, d: int)
    requires
        simple_items(s, i, d) is Some,
    ensures
        ({
            let q = skip_ws_end(s, i, false);
            let qs = simple_items(s, i, d)->0;
            &&& 0 <= i <= q
            &&& q >= s.len() ==> qs.len() == 0
            &&& q < s.len() ==> {
                &&& qs.len() > 0 && qs[0] == q
                &&& simple_end(s, q, Seq::empty(), Seq::empty(), d) matches Some(e) && i < e <= s.len() && value_end_ok(
                    char_at(s, e),
                    None,
                ) && simple_items(s, e, d) == Some(qs.drop_first())
                &&& starts_variable(s[q]) ==> var_type(var_scan(s, q).0, s[q] == '@', Seq::empty(), Seq::empty()) is Some
            }
        }),
{
    let q = skip_ws_end(s, i, false);
    if q < s.len() {
        let e = simple_end(s, q, Seq::empty(), Seq::empty(), d)->0;
        let qs2 = simple_items(s, e, d)->0;
        assert((seq![q] + qs2).drop_first() =~= qs2);
    }
}

// Parses an Arr given a file.
#[verifier::rlimit(40)]
pub fn parse_arr_file(stream: &mut CharStream, included: &mut Included) -> (r: Result<Arr, ParseError>)
    requires
        old(stream).wf(),
        old(included).current_inactive(),
        old(included).values_wf(),
    ensures
        advanced(*old(stream), *final(stream)),
        r matches Ok(a) ==> wf_value(ValueModel::Arr(a@.0, a@.1)),
        r is Ok ==> old(included).same_frame(final(included)),
        r is Ok ==> final(included).values_wf(),
        ({
            let s = old(stream).contents@;
            match simple_items(s, old(stream).pos as int, 1) {
                Some(qs) => match elems_type(TypeModel::Any, true, simple_types(s, qs, 1)) {
                    Some(t) => r matches Ok(a) && a@.1 == t && elems_values_ok(s, qs, Seq::empty(), Seq::empty(), a@.0, 1),
                    None => r matches Err(e) && elems_mismatch(TypeModel::Any, true, simple_types(s, qs, 1), 0) matches Some(
                        (k, tc),
                    ) && (e.kind matches ParseErrorKind::ExpectedType(t1, t2, l, c) && t1@ == tc && t2@ == simple_types(
                        s,
                        qs,
                        1,
                    )[k] && l == line_col(s, qs[k] as nat).0 && c == line_col(s, qs[k] as nat).1),
                },
                None => true,
            }
        }),
    decreases old(included).fresh(), old(included).outside(), remaining(*old(stream)), 3nat,
{
    let obj_pairs: Vec<Pair> = Vec::new();
    let mut globals: Vec<(String, Value)> = Vec::new();
    let mut vec: Vec<Value> = Vec::new();
    let mut tcur = Type::Any;
    let mut has_any = true;
    let ghost s0 = *old(stream);
    let ghost inc0 = *old(included);
    let ghost text = s0.contents@;
    let ghost items = simple_items(text, s0.pos as int, 1);
    let ghost qs: Seq<int> = match items { Some(x) => x, None => Seq::empty() };
    let ghost tys = simple_types(text, qs, 1);
    proof {
        assert(tys.subrange(0, tys.len() as int) =~= tys);
        assert(qs.subrange(0, qs.len() as int) =~= qs);
    }

    loop
        invariant
            s0 == *old(stream),
            text == s0.contents@,
            items == simple_items(text, s0.pos as int, 1),
            tys == simple_types(text, qs, 1),
            items is Some ==> items == Some(qs) && vec@.len() <= qs.len() && simple_items(text, stream.pos as int, 1)
                == Some(qs.subrange(vec@.len() as int, qs.len() as int)),
            items is Some ==> globals@.len() == 0,
            items is Some ==> forall|k: int| 0 <= k < vec@.len() ==> simple_value_ok(
                text,
                qs[k],
                Seq::empty(),
                Seq::empty(),
                (#[trigger] vec@[k])@,
                1,
            ),
            items is Some ==> elems_type(tcur@, has_any, tys.subrange(vec@.len() as int, tys.len() as int))
                == elems_type(TypeModel::Any, true, tys),
            items is Some ==> elems_mismatch(tcur@, has_any, tys.subrange(vec@.len() as int, tys.len() as int), vec@.len() as int)
                == elems_mismatch(TypeModel::Any, true, tys, 0),
            advanced(s0, *stream),
            inc0 == *old(included),
            inc0.same_frame(included),
            inc0.current_inactive(),
            obj_pairs@.len() == 0,
            globals_wf(globals@),
            included.values_wf(),
            has_any == model_has_any(tcur@),
            forall|j: int| 0 <= j < vec@.len() ==> wf_value((#[trigger] vec@[j])@) && model_generalizes(model_type_of(vec@[j]@), tcur@),
        ensures
            items is Some ==> vec@.len() == qs.len(),
        decreases stream.contents@.len() - stream.pos,
    {
        let ghost pos0 = stream.pos as int;
        // Go to the first non-whitespace character, or stop if there is none.
        let more = stream.skip_whitespace();
        proof {
            if items is Some {
                lemma_simple_items_at(text, pos0, 1);
            }
        }
        if !more {
            break;
        }

        // At a non-whitespace character, parse value.
        let (value_line, value_col) = (stream.line(), stream.col());
        let ghost q = stream.pos as int;
        let ghost k = vec@.len() as int;
        proof {
            let pm = pairs_model(obj_pairs@);
            let gm = named_values(globals@);
            assert(pm =~= Seq::empty());
            if items is Some {
                assert(gm =~= Seq::empty());
                assert(types_env(pm) =~= Seq::empty());
                assert(types_env(gm) =~= Seq::empty());
                assert(qs.subrange(k, qs.len() as int)[0] == qs[k]);
            }
            lemma_simple_value_start(text, q, obj_pairs@, gm);
            lemma_var_type(var_scan(text, q).0, text[q] == '@', pm, gm);
        }
        let value = parse_value(
            stream,
            &obj_pairs,
            &mut globals,
            included,
            value_line,
            value_col,
            1,
            None,
            true,
        )?;

        let tnew = value.get_type();
        let ghost rest = tys.subrange(k, tys.len() as int);
        proof {
            if items is Some {
                let pm = pairs_model(obj_pairs@);
                let gm = named_values(globals@);
                assert(gm =~= Seq::empty());
                assert(simple_value_ok(text, q, pm, gm, value@, 1));
                lemma_simple_type(text, q, pm, gm, value@, 1);
                assert(rest[0] == tnew@);
                assert(rest.drop_first() =~= tys.subrange(k + 1, tys.len() as int));
            }
        }
        match next_elem_type(&tcur, has_any, &tnew) {
            Some((t, any)) => {
                proof {
                    assert forall|j: int| 0 <= j < vec@.len() implies model_generalizes(model_type_of((#[trigger] vec@[j])@), t@) by {
                        lemma_generalizes_transitive(model_type_of(vec@[j]@), tcur@, t@);
                    }
                    if items is Some {
                        assert(elems_type(tcur@, has_any, rest) == elems_type(t@, any, rest.drop_first()));
                        assert(elems_mismatch(tcur@, has_any, rest, k) == elems_mismatch(t@, any, rest.drop_first(), k + 1));
                    }
                }
                tcur = t;
                has_any = any;
            },
            None => {
                proof {
                    if items is Some {
                        assert(elems_type(tcur@, has_any, rest) is None);
                        assert(elems_mismatch(tcur@, has_any, rest, k) == Some((k, tcur@)));
                        assert(q == qs[k]);
                    }
                }
                return error(stream, ParseErrorKind::ExpectedType(tcur, tnew, value_line, value_col));
            },
        }

        let ghost before = vec@;
        vec.push(value);
        proof {
            if items is Some {
                assert(qs.subrange(k + 1, qs.len() as int) =~= qs.subrange(k, qs.len() as int).drop_first());
                assert forall|j: int| 0 <= j < vec@.len() implies simple_value_ok(
                    text,
                    qs[j],
                    Seq::empty(),
                    Seq::empty(),
                    (#[trigger] vec@[j])@,
                    1,
                ) by {
                    if j < k {
                        assert(vec@[j] == before[j]);
                    }
                }
            }
        }
    }

    proof {
        lemma_arr_wf(vec@, tcur@);
        if items is Some {
            assert(tys.subrange(vec@.len() as int, tys.len() as int) =~= Seq::<TypeModel>::empty());
        }
    }
    Ok(Arr::from_values_unchecked(vec, tcur))
}

// Parses a Tup given a file.
#[verifier::rlimit(40)]
pub fn parse_tup_file(stream: &mut CharStream, included: &mut Included) -> (r: Result<Tup, ParseError>)
    requires
        old(stream).wf(),
        old(included).current_inactive(),
        old(included).values_wf(),
    ensures
        advanced(*old(stream), *final(stream)),
        r matches Ok(t) ==> wf_value(ValueModel::Tup(t@)),
        r is Ok ==> old(included).same_frame(final(included)),
        r is Ok ==> final(included).values_wf(),
        ({
            let s = old(stream).contents@;
            match simple_items(s, old(stream).pos as int, 1) {
                Some(qs) => r matches Ok(t) && elems_values_ok(s, qs, Seq::empty(), Seq::empty(), t@, 1),
                None => true,
            }
        }),
    decreases old(included).fresh(), old(included).outside(), remaining(*old(stream)), 3nat,
{
    let obj_pairs: Vec<Pair> = Vec::new();
    let mut globals: Vec<(String, Value)> = Vec::new();
    let mut vec: Vec<Value> = Vec::new();
    let ghost s0 = *old(stream);
    let ghost inc0 = *old(included);
    let ghost text = s0.contents@;
    let ghost items = simple_items(text, s0.pos as int, 1);
    let ghost qs: Seq<int> = match items { Some(x) => x, None => Seq::empty() };
    proof {
        assert(qs.subrange(0, qs.len() as int) =~= qs);
    }

    loop
        invariant
            s0 == *old(stream),
            text == s0.contents@,
            items == simple_items(text, s0.pos as int, 1),
            items is Some ==> items == Some(qs) && vec@.len() <= qs.len() && simple_items(text, stream.pos as int, 1)
                == Some(qs.subrange(vec@.len() as int, qs.len() as int)),
            items is Some ==> globals@.len() == 0,
            items is Some ==> forall|k: int| 0 <= k < vec@.len() ==> simple_value_ok(
                text,
                qs[k],
                Seq::empty(),
                Seq::empty(),
                (#[trigger] vec@[k])@,
                1,
            ),
            advanced(s0, *stream),
            inc0 == *old(included),
            inc0.same_frame(included),
            inc0.current_inactive(),
            obj_pairs@.len() == 0,
            globals_wf(globals@),
            included.values_wf(),
            forall|j: int| 0 <= j < vec@.len() ==> wf_value((#[trigger] vec@[j])@),
        ensures
            items is Some ==> vec@.len() == qs.len(),
        decreases stream.contents@.len() - stream.pos,
    {
        let ghost pos0 = stream.pos as int;
        // Go to the first non-whitespace character, or stop if there is none.
        let more = stream.skip_whitespace();
        proof {
            if items is Some {
                lemma_simple_items_at(text, pos0, 1);
            }
        }
        if !more {
            break;
        }

        // At a non-whitespace character, parse value.
        let (value_line, value_col) = (stream.line(), stream.col());
        let ghost q = stream.pos as int;
        let ghost k = vec@.len() as int;
        proof {
            let pm = pairs_model(obj_pairs@);
            let gm = named_values(globals@);
            assert(pm =~= Seq::empty());
            if items is Some {
                assert(gm =~= Seq::empty());
                assert(types_env(pm) =~= Seq::empty());
                assert(types_env(gm) =~= Seq::empty());
                assert(qs.subrange(k, qs.len() as int)[0] == qs[k]);
            }
            lemma_simple_value_start(text, q, obj_pairs@, gm);
            lemma_var_type(var_scan(text, q).0, text[q] == '@', pm, gm);
        }
        let value = parse_value(
            stream,
            &obj_pairs,
            &mut globals,
            included,
            value_line,
            value_col,
            1,
            None,
            true,
        )?;

        let ghost before = vec@;
        vec.push(value);
        proof {
            if items is Some {
                let pm = pairs_model(obj_pairs@);
                let gm = named_values(globals@);
                assert(gm =~= Seq::empty());
                assert(simple_value_ok(text, q, pm, gm, value@, 1));
                assert(qs.subrange(k + 1, qs.len() as int) =~= qs.subrange(k, qs.len() as int).drop_first());
                assert forall|j: int| 0 <= j < vec@.len() implies simple_value_ok(
                    text,
                    qs[j],
                    Seq::empty(),
                    Seq::empty(),
                    (#[trigger] vec@[j])@,
                    1,
                ) by {
                    if j < k {
                        assert(vec@[j] == before[j]);
                    }
                }
            }
        }
    }

    proof {
        lemma_tup_wf(vec@);
    }
    Ok(Tup::from_values(vec))
}

/// What parsing the text `s` of the file named `path` as the kind of value that an include
/// token asks for (1 for `Obj`, 3 for `Arr`, 4 for `Tup`) gives: a value of that kind;
/// `TooLong` for a text too long to read; and, for a text of simple fields or simple values,
/// exactly the value written.
pub open spec fn target_result_ok(s: Seq<char>, path: Seq<char>, kind: u8, r: Result<Value, ParseError>) -> bool {
    &&& r matches Ok(v) ==> (kind == 1 ==> v@ is Obj) && (kind == 3 ==> v@ is Arr) && (kind == 4 ==> v@ is Tup)
    &&& s.len() >= usize::MAX / 2 ==> (r matches Err(e) && e.kind is TooLong && (e.file matches Some(f) && f@
        == path))
    &&& ({
        let start = skip_ws_end(s, 0, false);
        s.len() < usize::MAX / 2 ==> {
            &&& kind == 1 && simple_text(s, start, Seq::empty(), Seq::empty(), false) ==> (r matches Ok(v)
                && v@ matches ValueModel::Obj(o) && exists|gs: Seq<(Seq<char>, ValueModel)>| simple_fields_ok(
                s,
                start,
                0,
                o.pairs,
                0,
                gs,
                false,
                o.parent,
            ))
            &&& kind == 3 ==> match simple_items(s, 0, 1) {
                Some(qs) => match elems_type(TypeModel::Any, true, simple_types(s, qs, 1)) {
                    Some(t) => r matches Ok(v) && v@ matches ValueModel::Arr(vs, t2) && t2 == t && elems_values_ok(
                        s,
                        qs,
                        Seq::empty(),
                        Seq::empty(),
                        vs,
                        1,
                    ),
                    None => r matches Err(e) && elems_mismatch(TypeModel::Any, true, simple_types(s, qs, 1), 0) matches Some(
                        (k, tc),
                    ) && (e.kind matches ParseErrorKind::ExpectedType(t1, t2, l, c) && t1@ == tc && t2@ == simple_types(
                        s,
                        qs,
                        1,
                    )[k] && l == line_col(s, qs[k] as nat).0 && c == line_col(s, qs[k] as nat).1),
                },
                None => true,
            }
            &&& kind == 4 ==> match simple_items(s, 0, 1) {
                Some(qs) => r matches Ok(v) && v@ matches ValueModel::Tup(vs) && elems_values_ok(
                    s,
                    qs,
                    Seq::empty(),
                    Seq::empty(),
                    vs,
                    1,
                ),
                None => true,
            }
        }
    })
}

/// Parses the file that an include names, as the kind of value that the include token asks
/// for (1 for `Obj`, 3 for `Arr`, 4 for `Tup`), with `target` as the file being parsed.
fn parse_include_target(
    target: &IncludeTarget,
    kind: u8,
    included: &mut Included,
) -> (r: Result<Value, ParseError>)
    requires
        kind == 1 || kind == 3 || kind == 4,
        old(included).current == Some(target.canonical),
        old(included).current_inactive(),
        old(included).values_wf(),
    ensures
        r matches Ok(v) ==> wf_value(v@),
        r is Ok ==> old(included).same_frame(final(included)),
        r is Ok ==> final(included).values_wf(),
        target_result_ok(target.contents@, target.path@, kind, r),
    decreases old(included).fresh(), old(included).outside(), target.contents@.len() + 1, 0nat,
{
    let mut sub = match CharStream::from_string_impl(Some(target.path.clone()), target.contents.as_str()) {
        Some(st) => st,
        None => return Err(ParseError { file: Some(target.path.clone()), kind: ParseErrorKind::TooLong }),
    };
    if kind == 1 {
        let o = parse_obj_stream(&mut sub, included)?;
        Ok(Value::Obj(o))
    } else if kind == 3 {
        let a = parse_arr_file(&mut sub, included)?;
        Ok(Value::Arr(a))
    } else {
        let t = parse_tup_file(&mut sub, included)?;
        Ok(Value::Tup(t))
    }
}

/// Where an include at `p` ends, just after its `>`, when it is written as a string path, or as a
/// variable that names a string or an include token followed by a string path, with no operator
/// after either.
pub open spec fn include_end(s: Seq<char>, p: int, obj_pairs: Seq<Pair>, globals0: Seq<(String, Value)>) -> Option<
    int,
> {
    let q = skip_ws_end(s, p + 1, false);
    if q >= s.len() {
        None
    } else if s[q] == '"' {
        match scan_str(s, q + 1) {
            StrScan::Done(_, e) => if !(e < s.len() && spec_is_op(s[e])) && value_end_ok(char_at(s, e), Some('>')) {
                close_after(s, e)
            } else {
                None
            },
            _ => None,
        }
    } else if starts_variable(s[q]) {
        match atom_end(s, q) {
            Some(e1) => if !(e1 < s.len() && spec_is_op(s[e1])) && value_end_ok(char_at(s, e1), Some('>')) {
                match var_base(var_scan(s, q).0, s[q] == '@', pairs_model(obj_pairs), named_values(globals0)) {
                    Some(x) => if x is Obj && 1 <= x->Obj_0.token <= 4 {
                        let q2 = skip_ws_end(s, e1, false);
                        if q2 < s.len() && s[q2] == '"' {
                            match scan_str(s, q2 + 1) {
                                StrScan::Done(_, e) => if !(e < s.len() && spec_is_op(s[e])) && value_end_ok(
                                    char_at(s, e),
                                    Some('>'),
                                ) {
                                    close_after(s, e)
                                } else {
                                    None
                                },
                                _ => None,
                            }
                        } else {
                            None
                        }
                    } else if x is Str {
                        close_after(s, e1)
                    } else {
                        None
                    },
                    None => None,
                }
            } else {
                None
            },
            None => None,
        }
    } else {
        None
    }
}

/// Just after the `>` that follows `e` past whitespace, if one does.
pub open spec fn close_after(s: Seq<char>, e: int) -> Option<int> {
    let q2 = skip_ws_end(s, e, false);
    if q2 < s.len() && s[q2] == '>' {
        Some(q2 + 1)
    } else {
        None
    }
}

/// What reading an include at `p` gives (see `parse_include`): `r` is the result, `globals0` the
/// globals and `inc0`/`inc1` the include state before and after it, and `depth` the nesting
/// depth of the include.
pub open spec fn include_read(
    s: Seq<char>,
    p: int,
    file: Option<String>,
    obj_pairs: Seq<Pair>,
    globals0: Seq<(String, Value)>,
    inc0: Included,
    inc1: Included,
    depth: usize,
    r: Result<Value, ParseError>,
) -> bool {
    let q = skip_ws_end(s, p + 1, false);
    &&& depth > MAX_DEPTH ==> (r matches Err(e) && e.file == file && e.kind == ParseErrorKind::MaxDepth(
        line_col(s, p as nat).0 as usize,
        line_col(s, p as nat).1 as usize,
    ) && inc1 == inc0)
    &&& depth <= MAX_DEPTH && q >= s.len() ==> (r matches Err(e) && e.file == file && e.kind
        == ParseErrorKind::UnexpectedEnd(line_col(s, s.len()).0 as usize) && inc1 == inc0)
    &&& depth <= MAX_DEPTH && q < s.len() && !starts_value(s[q]) ==> (r matches Err(e) && e.file == file
        && e.kind == ParseErrorKind::InvalidValueChar(
        s[q],
        line_col(s, q as nat).0 as usize,
        line_col(s, q as nat).1 as usize,
    ) && inc1 == inc0)
    &&& depth <= MAX_DEPTH && q < s.len() && s[q] == '"' ==> match scan_str(s, q + 1) {
        StrScan::Done(text, e) => !(e < s.len() && spec_is_op(s[e])) && value_end_ok(char_at(s, e), Some('>'))
            ==> include_path_ok(s, e, file, inc0, inc1, text, 1, line_col(s, q as nat), r),
        _ => true,
    }
    &&& depth <= MAX_DEPTH && q < s.len() && starts_variable(s[q]) ==> match atom_end(s, q) {
        Some(e1) => !(e1 < s.len() && spec_is_op(s[e1])) && value_end_ok(char_at(s, e1), Some('>')) ==> match var_base(
            var_scan(s, q).0,
            s[q] == '@',
            pairs_model(obj_pairs),
            named_values(globals0),
        ) {
            Some(x) => if x is Obj && 1 <= x->Obj_0.token <= 4 {
                let q2 = skip_ws_end(s, e1, false);
                &&& q2 >= s.len() ==> (r matches Err(err) && err.file == file && err.kind
                    == ParseErrorKind::UnexpectedEnd(line_col(s, s.len()).0 as usize))
                &&& q2 < s.len() && s[q2] == '"' ==> match scan_str(s, q2 + 1) {
                    StrScan::Done(text, e) => !(e < s.len() && spec_is_op(s[e])) && value_end_ok(
                        char_at(s, e),
                        Some('>'),
                    ) ==> include_path_ok(
                        s,
                        e,
                        file,
                        inc0,
                        inc1,
                        text,
                        x->Obj_0.token,
                        line_col(s, q2 as nat),
                        r,
                    ),
                    _ => true,
                }
            } else if x is Str {
                include_path_ok(
                    s,
                    e1,
                    file,
                    inc0,
                    inc1,
                    x->Str_0,
                    1,
                    line_col(s, q as nat),
                    r,
                )
            } else {
                r matches Err(err) && err.file == file && (err.kind matches ParseErrorKind::InvalidIncludeToken(
                    tt,
                    l,
                    c,
                ) && tt@ == model_type_of(x) && l == line_col(s, q as nat).0 && c == line_col(s, q as nat).1)
                    && inc1 == inc0
            },
            None => true,
        },
        None => true,
    }

}

// Parses an include: `<` an optional token (`Obj`, `Str`, `Arr` or `Tup`), a string that
// names the file, and `>`.
#[verifier::rlimit(60)]
pub fn parse_include(
    stream: &mut CharStream,
    obj_pairs: &Vec<Pair>,
    globals: &mut Vec<(String, Value)>,
    included: &mut Included,
    depth: usize,
) -> (r: Result<Value, ParseError>)
    requires
        old(stream).wf(),
        old(stream).peek_spec() == Some('<'),
        old(included).current_inactive(),
        nested_depth_ok(*old(stream), depth),
        pair_values_wf(obj_pairs@),
        globals_wf(old(globals)@),
        old(included).values_wf(),
    ensures
        advanced(*old(stream), *final(stream)),
        r is Ok ==> final(stream).pos > old(stream).pos,
        r matches Ok(v) ==> wf_value(v@),
        r is Ok ==> old(included).same_frame(final(included)),
        r is Ok ==> globals_wf(final(globals)@) && final(included).values_wf(),
        include_read(
            old(stream).contents@,
            old(stream).pos as int,
            old(stream).file,
            obj_pairs@,
            old(globals)@,
            *old(included),
            *final(included),
            depth,
            r,
        ),
        r is Ok && include_end(old(stream).contents@, old(stream).pos as int, obj_pairs@, old(globals)@) is Some
            ==> include_end(old(stream).contents@, old(stream).pos as int, obj_pairs@, old(globals)@) == Some(
            final(stream).pos as int,
        ),
    decreases old(included).fresh(), old(included).outside(), remaining(*old(stream)), 0nat,
{
    // Check depth.
    if depth > MAX_DEPTH {
        return error(stream, ParseErrorKind::MaxDepth(stream.line(), stream.col()));
    }

    // We must already be at a '<'.
    let _ = stream.next();

    // Go to the next non-whitespace character, or error if there is none.
    if !stream.skip_whitespace() {
        return error(stream, ParseErrorKind::UnexpectedEnd(stream.line()));
    }

    let (line1, col1) = (stream.line(), stream.col());
    let ghost q1 = stream.pos as int;
    let first = parse_value(stream, obj_pairs, globals, included, line1, col1, depth, Some('>'), true)?;
    let ghost pos1 = stream.pos as int;
    proof {
        let s = old(stream).contents@;
        if starts_variable(s[q1]) {
            if let Some(e1) = atom_end(s, q1) {
                if !(e1 < s.len() && spec_is_op(s[e1])) {
                    assert(pos1 == e1);
                    assert(*included == *old(included));
                    assert(globals@ == old(globals)@);
                }
            }
        }
    }

    // The include token, if any: 1 for `Obj` (the default), 2 for `Str`, 3 for `Arr`, 4 for `Tup`.
    let mut include_type: u8 = 1;
    let mut parse_again = true;
    match &first {
        Value::Obj(o) => {
            let t = o.token();
            if 1 <= t && t <= 4 {
                include_type = t;
            } else {
                return error(stream, ParseErrorKind::InvalidIncludeToken(first.get_type(), line1, col1));
            }
        },
        Value::Str(_) => {
            parse_again = false;
        },
        _ => {
            return error(stream, ParseErrorKind::InvalidIncludeToken(first.get_type(), line1, col1));
        },
    }

    let (line, col, value) = if parse_again {
        // Go to the next non-whitespace character, or error if there is none.
        if !stream.skip_whitespace() {
            return error(stream, ParseErrorKind::UnexpectedEnd(stream.line()));
        }
        let (line2, col2) = (stream.line(), stream.col());
        let ghost q2 = stream.pos as int;
        let second = parse_value(stream, obj_pairs, globals, included, line2, col2, depth, Some('>'), true)?;
        proof {
            let s = old(stream).contents@;
            assert(q2 == skip_ws_end(s, pos1, false));
            if s[q2] == '"' {
                if let StrScan::Done(text, e) = scan_str(s, q2 + 1) {
                    if !(e < s.len() && spec_is_op(s[e])) {
                        assert(stream.pos == e);
                    }
                }
            }
        }
        (line2, col2, second)
    } else {
        (line1, col1, first)
    };

    // Go to the next non-whitespace character, or error if there is none.
    if !stream.skip_whitespace() {
        return error(stream, ParseErrorKind::UnexpectedEnd(stream.line()));
    }

    let ch = stream.next().unwrap();
    if ch != '>' {
        proof {
            crate::parse::char_stream::lemma_line_col_bound(stream.contents@, stream.pos as nat);
        }
        return error(stream, ParseErrorKind::InvalidClosingBracket(Some('>'), ch, stream.line(), stream.col() - 1));
    }

    // The path of the include file.
    let include_file = match value {
        Value::Str(s) => s,
        other => {
            return error(stream, ParseErrorKind::ExpectedType(Type::Str, other.get_type(), line, col));
        },
    };

    include_value(&stream.file(), include_file, include_type, included, line, col)
}

/// What an include whose path `path` was written at `pos` and ends at `e` gives, with `inc`
/// the include state before and `inc1` after: after the path, only whitespace and the closing
/// `>`, else an error that leaves the state as it was; then the file it names, as the kind of
/// value that `kind` asks for (see `include_result_ok`), remembered under its canonical path;
/// an error other than one in the first reading of a file leaves the values and files as they
/// were.
pub open spec fn include_path_ok(
    s: Seq<char>,
    e: int,
    file: Option<String>,
    inc: Included,
    inc1: Included,
    path: Seq<char>,
    kind: u8,
    pos: (nat, nat),
    r: Result<Value, ParseError>,
) -> bool {
    let q2 = skip_ws_end(s, e, false);
    &&& q2 >= s.len() ==> (r matches Err(err) && err.file == file && err.kind == ParseErrorKind::UnexpectedEnd(
        line_col(s, s.len()).0 as usize,
    ) && inc1 == inc)
    &&& q2 < s.len() && s[q2] != '>' ==> (r matches Err(err) && err.file == file && err.kind
        == ParseErrorKind::InvalidClosingBracket(
        Some('>'),
        s[q2],
        char_pos(s, q2).0 as usize,
        char_pos(s, q2).1 as usize,
    ) && inc1 == inc)
    &&& q2 < s.len() && s[q2] == '>' ==> {
        &&& include_result_ok(inc, file, path, kind, pos.0 as usize, pos.1 as usize, r)
        &&& r matches Ok(v) ==> (include_canonical(inc, file, path) matches Some(c) && remembered(inc1, c, v@))
        &&& r is Err && !include_parses(inc, file, path, kind) ==> inc1.values@ == inc.values@ && inc1.files
            == inc.files
    }
}

/// The index of the first record of the include written as `path` in `base`, at or after `i`.
pub open spec fn first_entry(files: Seq<IncludeFile>, base: Option<String>, path: Seq<char>, i: nat) -> Option<int>
    decreases files.len() - i,
{
    if i >= files.len() {
        None
    } else if entry_matches(files[i as int], base, path) {
        Some(i as int)
    } else {
        first_entry(files, base, path, i + 1)
    }
}

/// `first_entry` finds the first matching record, and nothing when no record matches.
proof fn lemma_first_entry(files: Seq<IncludeFile>, base: Option<String>, path: Seq<char>, i: nat, k: int)
    requires
        i <= files.len(),
        forall|j: int| i <= j < k ==> !entry_matches(#[trigger] files[j], base, path),
        k == files.len() || (i <= k < files.len() && entry_matches(files[k], base, path)),
    ensures
        first_entry(files, base, path, i) == (if k < files.len() { Some(k) } else { None }),
    decreases files.len() - i,
{
    if i < k {
        lemma_first_entry(files, base, path, i + 1, k);
    }
}

/// What an include of the file written as `path` in `file` gives, as the kind of value that
/// the include token asks for (2 for `Str`): `IncludeNeeded` if it is not resolved yet;
/// `InvalidIncludePath` if it names no file; `CyclicInclude` if that file is being parsed,
/// or has includes being processed; else the value remembered for the file, or, the first
/// time, for a string its text and otherwise the value its text is read as (see
/// `target_result_ok`).
pub open spec fn include_result_ok(
    inc: Included,
    file: Option<String>,
    path: Seq<char>,
    kind: u8,
    line: usize,
    col: usize,
    r: Result<Value, ParseError>,
) -> bool {
    match first_entry(inc.files@, file, path, 0) {
        None => r matches Err(e) && e.file == file && (e.kind matches ParseErrorKind::IncludeNeeded(b, p) && b == file
            && p@ == path),
        Some(i) => match inc.files@[i].target {
            None => r matches Err(e) && e.file == file && (e.kind matches ParseErrorKind::InvalidIncludePath(p, l, c)
                && p@ == path && l == line && c == col),
            Some(t) => if inc.active_set().contains(t.canonical@) || (inc.current matches Some(c) && c@
                == t.canonical@) {
                r matches Err(e) && e.file == file && (e.kind matches ParseErrorKind::CyclicInclude(p, l, c) && p@ == path
                    && l == line && c == col)
            } else {
                match first_value(named_values(inc.values@), t.canonical@, 0) {
                    Some(v) => r matches Ok(x) && x@ == v,
                    None => if kind == 2 {
                        r matches Ok(x) && x@ == ValueModel::Str(t.contents@)
                    } else {
                        target_result_ok(t.contents@, t.path@, kind, r)
                    },
                }
            },
        },
    }
}

/// The canonical path of the file that the include written as `path` in `file` names, once
/// resolved.
pub open spec fn include_canonical(inc: Included, file: Option<String>, path: Seq<char>) -> Option<Seq<char>> {
    match first_entry(inc.files@, file, path, 0) {
        Some(i) => match inc.files@[i].target {
            Some(t) => Some(t.canonical@),
            None => None,
        },
        None => None,
    }
}

/// `inc` remembers the value `v` for the file with canonical path `c`.
pub open spec fn remembered(inc: Included, c: Seq<char>, v: ValueModel) -> bool {
    exists|i: int| 0 <= i < inc.values@.len() && (#[trigger] inc.values@[i]).0@ == c && inc.values@[i].1@ == v
}

/// The include written as `path` in `file` leads to the first reading of a file as an object,
/// array or tuple (see `include_result_ok`).
pub open spec fn include_parses(inc: Included, file: Option<String>, path: Seq<char>, kind: u8) -> bool {
    match first_entry(inc.files@, file, path, 0) {
        Some(i) => match inc.files@[i].target {
            Some(t) => !(inc.active_set().contains(t.canonical@) || (inc.current matches Some(c) && c@ == t.canonical@))
                && first_value(named_values(inc.values@), t.canonical@, 0) is None && kind != 2,
            None => false,
        },
        None => false,
    }
}

/// Resolves an include of the file written as `path` in `file`, as the kind of value that the
/// include token asks for (1 `Obj`, 2 `Str`, 3 `Arr`, 4 `Tup`); `line` and `col` are where the
/// path was written.
pub fn include_value(
    file: &Option<String>,
    include_file: String,
    include_type: u8,
    included: &mut Included,
    line: usize,
    col: usize,
) -> (r: Result<Value, ParseError>)
    requires
        1 <= include_type <= 4,
        old(included).current_inactive(),
        old(included).values_wf(),
    ensures
        include_result_ok(*old(included), *file, include_file@, include_type, line, col, r),
        r matches Ok(v) ==> (include_canonical(*old(included), *file, include_file@) matches Some(c) && remembered(
            *final(included),
            c,
            v@,
        )),
        r is Err && !include_parses(*old(included), *file, include_file@, include_type) ==> final(included).values@
            == old(included).values@ && final(included).files == old(included).files,
        r matches Ok(v) ==> wf_value(v@),
        r is Ok ==> old(included).same_frame(final(included)),
        r is Ok ==> final(included).values_wf(),
    decreases old(included).fresh(), old(included).outside(), 0nat, 1nat,
{
    let ghost inc_in = *included;
    // The file the path names, once the include is resolved.
    let idx = match included.find_file(file, include_file.as_str()) {
        Some(i) => {
            proof {
                lemma_first_entry(inc_in.files@, *file, include_file@, 0, i as int);
            }
            i
        },
        None => {
            proof {
                lemma_first_entry(inc_in.files@, *file, include_file@, 0, inc_in.files@.len() as int);
            }
            return Err(ParseError { file: opt_string_copy(file), kind: ParseErrorKind::IncludeNeeded(opt_string_copy(file), include_file) });
        },
    };
    let target = match &included.files[idx].target {
        Some(t) => IncludeTarget { path: t.path.clone(), canonical: t.canonical.clone(), contents: t.contents.clone() },
        None => return Err(ParseError { file: opt_string_copy(file), kind: ParseErrorKind::InvalidIncludePath(include_file, line, col) }),
    };
    proof {
        lemma_target_canons(included.files@, idx as int);
        vstd::seq_lib::seq_to_set_is_finite(target_canons(included.files@));
    }

    // Prevent cyclic includes by marking the current file as being processed.
    let ghost inc0 = *included;
    let storing = match &included.current {
        Some(c) => Some(c.clone()),
        None => None,
    };
    match &storing {
        Some(c) => included.activate(c),
        None => {},
    }
    if included.is_active(target.canonical.as_str()) {
        return Err(ParseError { file: opt_string_copy(file), kind: ParseErrorKind::CyclicInclude(include_file, line, col) });
    }

    // Get either the remembered value or parse the file if it's our first time seeing it.
    let ghost vm = named_values(included.values@);
    let result = match included.cached(target.canonical.as_str()) {
        Some(v) => {
            proof {
                let k = choose|i: int|
                    0 <= i < included.values@.len() && included.values@[i].0@ == target.canonical@ && (#[trigger] included.values@[i]).1@
                        == v@ && forall|j: int| 0 <= j < i ==> (#[trigger] included.values@[j]).0@ != target.canonical@;
                assert forall|j: int| 0 <= j < k implies (#[trigger] vm[j]).0 != target.canonical@ by {
                    assert(vm[j].0 == included.values@[j].0@);
                }
                lemma_first_value(vm, target.canonical@, 0, k);
                assert(remembered(*included, target.canonical@, v@));
            }
            v
        },
        None => {
            proof {
                assert forall|j: int| 0 <= j < vm.len() implies (#[trigger] vm[j]).0 != target.canonical@ by {
                    assert(vm[j].0 == included.values@[j].0@);
                }
                lemma_first_value(vm, target.canonical@, 0, vm.len() as int);
            }
            let v = if include_type == 2 {
                Value::Str(parse_str_file(&target))
            } else {
                let ghost inc1 = *included;
                included.current = Some(target.canonical.clone());
                proof {
                    match inc0.current {
                        Some(c) => {
                            lemma_fresh_decreases(inc0.targets(), inc0.active_set(), c@);
                        },
                        None => {},
                    }
                    assert(included.targets() == inc0.targets());
                    assert(included.active_set() == inc1.active_set());
                }
                let parsed = parse_include_target(&target, include_type, included)?;
                included.current = match &storing {
                    Some(c) => Some(c.clone()),
                    None => None,
                };
                parsed
            };
            included.remember(target.canonical.clone(), v.copy());
            proof {
                let last = (included.values@.len() - 1) as int;
                assert(included.values@[last].0@ == target.canonical@ && included.values@[last].1@ == v@);
                assert(remembered(*included, target.canonical@, v@));
            }
            v
        },
    };

    // No longer processing the current file.
    match &storing {
        Some(c) => {
            included.deactivate(c);
            proof {
                assert(inc0.active_set().insert(c@).remove(c@) =~= inc0.active_set());
            }
        },
        None => {},
    }

    Ok(result)
}

/// A copy of an optional string.
fn opt_string_copy(s: &Option<String>) -> (r: Option<String>)
    ensures
        r == *s,
{
    match s {
        Some(x) => Some(x.clone()),
        None => None,
    }
}

/// The object `o` is what reading the whole text `s` of the file `file` gives (see
/// `obj_fields_read`), with the resolved includes `files`, no file values known yet, no file
/// being included, and `current` the canonical path of the file read, if any.
pub open spec fn text_read(
    s: Seq<char>,
    file: Option<String>,
    files: Seq<IncludeFile>,
    current: Option<String>,
    o: ObjModel,
) -> bool {
    exists|g1: Seq<(String, Value)>, i0: Included, i1: Included, end: int|
        #[trigger] obj_fields_read(s, skip_ws_end(s, 0, false), file, None, 1, Seq::empty(), g1, i0, i1, o, end)
            && i0.files@ == files && i0.values@.len() == 0 && i0.active@.len() == 0 && i0.current == current
}

/// Parses the file `root` as an `Obj`, with the includes resolved so far in `included`.
/// An include that is not resolved yet ends the parse with `IncludeNeeded`.
pub fn parse_obj_file(root: &IncludeTarget, included: &mut Included) -> (r: Result<Obj, ParseError>)
    ensures
        r matches Ok(o) ==> text_read(root.contents@, Some(root.path), old(included).files@, Some(root.canonical), o@),
        root.contents@.len() >= usize::MAX / 2 ==> (r matches Err(e) && e.kind is TooLong),
        root.contents@.len() < usize::MAX / 2 && skip_ws_end(root.contents@, 0, false) == root.contents@.len()
            ==> (r matches Ok(o) && o@.pairs.len() == 0 && o@.parent is None),
        r matches Ok(o) ==> wf_obj(o@),
        ({
            let s = root.contents@;
            let start = skip_ws_end(s, 0, false);
            s.len() < usize::MAX / 2 && simple_text(s, start, Seq::empty(), Seq::empty(), false) ==> (r matches Ok(o)
                && exists|gs: Seq<(Seq<char>, ValueModel)>| simple_fields_ok(s, start, 0, o@.pairs, 0, gs, false, o@.parent))
        }),
        ({
            let start = skip_ws_end(root.contents@, 0, false);
            root.contents@.len() < usize::MAX / 2 ==> (simple_error_at(root.contents@, start, Seq::empty(), Seq::empty(), false, None, 1) matches Some(q) ==> (r
                matches Err(err) && var_error_ok(
                var_scan(root.contents@, q).0,
                root.contents@[q] == '@',
                line_col(root.contents@, q as nat).0 as usize,
                line_col(root.contents@, q as nat).1 as usize,
                Err::<Value, ParseError>(err),
            )))
        }),
{
    included.values = Vec::new();
    included.active = Vec::new();
    included.current = Some(root.canonical.clone());
    proof {
        assert(string_views(included.active@).to_set() =~= Set::empty());
    }
    let mut stream = match CharStream::from_string_impl(Some(root.path.clone()), root.contents.as_str()) {
        Some(st) => st,
        None => return Err(ParseError { file: Some(root.path.clone()), kind: ParseErrorKind::TooLong }),
    };
    let ghost i0 = *included;
    let r = parse_obj_stream(&mut stream, included);
    proof {
        if let Ok(o) = &r {
            let g1 = choose|g1: Seq<(String, Value)>|
                #[trigger] obj_fields_read(
                    root.contents@,
                    skip_ws_end(root.contents@, 0, false),
                    Some(root.path),
                    None,
                    1,
                    Seq::empty(),
                    g1,
                    i0,
                    *included,
                    o@,
                    stream.pos as int,
                );
            assert(obj_fields_read(
                root.contents@,
                skip_ws_end(root.contents@, 0, false),
                Some(root.path),
                None,
                1,
                Seq::empty(),
                g1,
                i0,
                *included,
                o@,
                stream.pos as int,
            ));
        }
    }
    r
}

/// Parses `contents` as an `Obj`, with the includes resolved so far in `included`; include
/// paths are taken as they are written. An include that is not resolved yet ends the parse
/// with `IncludeNeeded`.
pub fn parse_obj_str_included(contents: &str, included: &mut Included) -> (r: Result<Obj, ParseError>)
    ensures
        r matches Ok(o) ==> text_read(contents@, None, old(included).files@, None, o@),
        contents@.len() >= usize::MAX / 2 ==> (r matches Err(e) && e.kind is TooLong),
        contents@.len() < usize::MAX / 2 && skip_ws_end(contents@, 0, false) == contents@.len()
            ==> (r matches Ok(o) && o@.pairs.len() == 0 && o@.parent is None),
        r matches Ok(o) ==> wf_obj(o@),
        ({
            let start = skip_ws_end(contents@, 0, false);
            contents@.len() < usize::MAX / 2 && simple_text(contents@, start, Seq::empty(), Seq::empty(), false) ==> (r
                matches Ok(o) && exists|gs: Seq<(Seq<char>, ValueModel)>| simple_fields_ok(
                contents@,
                start,
                0,
                o@.pairs,
                0,
                gs,
                false,
                o@.parent,
            ))
        }),
        ({
            let start = skip_ws_end(contents@, 0, false);
            contents@.len() < usize::MAX / 2 ==> (simple_error_at(contents@, start, Seq::empty(), Seq::empty(), false, None, 1) matches Some(q) ==> (r
                matches Err(err) && var_error_ok(
                var_scan(contents@, q).0,
                contents@[q] == '@',
                line_col(contents@, q as nat).0 as usize,
                line_col(contents@, q as nat).1 as usize,
                Err::<Value, ParseError>(err),
            )))
        }),
{
    included.values = Vec::new();
    included.active = Vec::new();
    included.current = None;
    proof {
        assert(string_views(included.active@).to_set() =~= Set::empty());
    }
    let mut stream = match CharStream::from_string(contents) {
        Some(st) => st,
        None => return Err(ParseError { file: None, kind: ParseErrorKind::TooLong }),
    };
    let ghost i0 = *included;
    let r = parse_obj_stream(&mut stream, included);
    proof {
        if let Ok(o) = &r {
            let g1 = choose|g1: Seq<(String, Value)>|
                #[trigger] obj_fields_read(
                    contents@,
                    skip_ws_end(contents@, 0, false),
                    None,
                    None,
                    1,
                    Seq::empty(),
                    g1,
                    i0,
                    *included,
                    o@,
                    stream.pos as int,
                );
            assert(obj_fields_read(
                contents@,
                skip_ws_end(contents@, 0, false),
                None,
                None,
                1,
                Seq::empty(),
                g1,
                i0,
                *included,
                o@,
                stream.pos as int,
            ));
        }
    }
    r
}

/// Parses given &str as an `Obj`. This library reads no files: an include in the text ends
/// the parse with `IncludeNeeded`, naming the file wanted. A caller that reads files records
/// each one in an `Included` and parses again with `parse_obj_str_included` (or
/// `parse_obj_file`), until no include is left unresolved.
pub fn parse_obj_str(contents: &str) -> (r: Result<Obj, ParseError>)
    ensures
        r matches Ok(o) ==> text_read(contents@, None, Seq::empty(), None, o@),
        contents@.len() >= usize::MAX / 2 ==> (r matches Err(e) && e.kind is TooLong),
        contents@.len() < usize::MAX / 2 && skip_ws_end(contents@, 0, false) == contents@.len()
            ==> (r matches Ok(o) && o@.pairs.len() == 0 && o@.parent is None),
        r matches Ok(o) ==> wf_obj(o@),
        ({
            let start = skip_ws_end(contents@, 0, false);
            contents@.len() < usize::MAX / 2 && simple_text(contents@, start, Seq::empty(), Seq::empty(), false) ==> (r
                matches Ok(o) && exists|gs: Seq<(Seq<char>, ValueModel)>| simple_fields_ok(
                contents@,
                start,
                0,
                o@.pairs,
                0,
                gs,
                false,
                o@.parent,
            ))
        }),
        ({
            let start = skip_ws_end(contents@, 0, false);
            contents@.len() < usize::MAX / 2 ==> (simple_error_at(contents@, start, Seq::empty(), Seq::empty(), false, None, 1) matches Some(q) ==> (r
                matches Err(err) && var_error_ok(
                var_scan(contents@, q).0,
                contents@[q] == '@',
                line_col(contents@, q as nat).0 as usize,
                line_col(contents@, q as nat).1 as usize,
                Err::<Value, ParseError>(err),
            )))
        }),
{
    let mut included = Included::new();
    proof {
        assert(included.files@ =~= Seq::<IncludeFile>::empty());
    }
    parse_obj_str_included(contents, &mut included)
}

impl core::str::FromStr for Obj {
    type Err = ParseError;

    /// Parses `s` as an `Obj`, as `parse_obj_str` does: an include in the text ends the parse
    /// with `IncludeNeeded`, since this library reads no files.
    fn from_str(s: &str) -> (r: Result<Obj, ParseError>)
        ensures
            r matches Ok(o) ==> text_read(s@, None, Seq::empty(), None, o@),
            s@.len() >= usize::MAX / 2 ==> (r matches Err(e) && e.kind is TooLong),
            s@.len() < usize::MAX / 2 && skip_ws_end(s@, 0, false) == s@.len() ==> (r matches Ok(o) && o@.pairs.len()
                == 0 && o@.parent is None),
            r matches Ok(o) ==> wf_obj(o@),
            ({
                let start = skip_ws_end(s@, 0, false);
                s@.len() < usize::MAX / 2 && simple_text(s@, start, Seq::empty(), Seq::empty(), false) ==> (r matches Ok(
                    o,
                ) && exists|gs: Seq<(Seq<char>, ValueModel)>| simple_fields_ok(s@, start, 0, o@.pairs, 0, gs, false, o@.parent))
            }),
            ({
                let start = skip_ws_end(s@, 0, false);
                s@.len() < usize::MAX / 2 ==> (simple_error_at(s@, start, Seq::empty(), Seq::empty(), false, None, 1) matches Some(q)
                    ==> (r matches Err(err) && var_error_ok(
                    var_scan(s@, q).0,
                    s@[q] == '@',
                    line_col(s@, q as nat).0 as usize,
                    line_col(s@, q as nat).1 as usize,
                    Err::<Value, ParseError>(err),
                )))
            }),
    {
        parse_obj_str(s)
    }
}

} // verus!
verus! {

/// Cancels a non-zero factor.
proof fn lemma_cancel(p: int, a: int, b: int)
    requires
        p != 0,
        p * a == p * b,
    ensures
        a == b,
{
    assert(a == b) by (nonlinear_arith)
        requires
            p != 0,
            p * a == p * b,
    ;
}

/// `(u + k w) m B = u (m B) + k (w (m B))`.
proof fn lemma_distrib(u: int, w: int, k: int, m: int, bb: int)
    ensures
        ((u + k * w) * m) * bb == u * (m * bb) + k * (w * (m * bb)),
{
    assert(((u + k * w) * m) * bb == u * (m * bb) + k * (w * (m * bb))) by (nonlinear_arith);
}

/// Regroups a product of five factors.
proof fn lemma_regroup(a: int, b: int, m: int, c: int, d: int)
    ensures
        (a * b) * (m * (c * d)) == m * ((a * c) * (b * d)),
{
    assert((a * b) * (m * (c * d)) == m * ((a * c) * (b * d))) by (nonlinear_arith);
}

/// Adding (`k` one) or subtracting (`k` minus one) fractions `x1/y1` and `x2/y2` equal to
/// `a1/b1` and `a2/b2` gives a fraction `n/m` equal to `(a1 b2 + k a2 b1) / (b1 b2)`.
proof fn lemma_ratio_add(x1: int, y1: int, a1: int, b1: int, x2: int, y2: int, a2: int, b2: int, n: int, m: int, k: int)
    requires
        y1 > 0,
        y2 > 0,
        x1 * b1 == a1 * y1,
        x2 * b2 == a2 * y2,
        n * (y1 * y2) == (x1 * y2 + k * (x2 * y1)) * m,
    ensures
        n * (b1 * b2) == (a1 * b2 + k * (a2 * b1)) * m,
{
    let p = y1 * y2;
    assert(p > 0) by (nonlinear_arith)
        requires
            y1 > 0,
            y2 > 0,
            p == y1 * y2,
    ;
    let bb = b1 * b2;
    assert(p * (n * bb) == (n * p) * bb) by (nonlinear_arith);
    assert((n * p) * bb == ((x1 * y2 + k * (x2 * y1)) * m) * bb);
    lemma_distrib(x1 * y2, x2 * y1, k, m, bb);
    lemma_regroup(x1, y2, m, b1, b2);
    lemma_regroup(x2, y1, m, b2, b1);
    assert(b2 * b1 == bb) by (nonlinear_arith)
        requires
            bb == b1 * b2,
    ;
    assert(m * ((x1 * b1) * (y2 * b2)) == m * ((a1 * y1) * (y2 * b2)));
    assert(m * ((x2 * b2) * (y1 * b1)) == m * ((a2 * y2) * (y1 * b1)));
    assert(m * ((a1 * y1) * (y2 * b2)) == p * ((a1 * b2) * m)) by (nonlinear_arith)
        requires
            p == y1 * y2,
    ;
    assert(m * ((a2 * y2) * (y1 * b1)) == p * ((a2 * b1) * m)) by (nonlinear_arith)
        requires
            p == y1 * y2,
    ;
    assert(p * ((a1 * b2) * m) + k * (p * ((a2 * b1) * m)) == p * ((a1 * b2 + k * (a2 * b1)) * m)) by (nonlinear_arith);
    lemma_cancel(p, n * bb, (a1 * b2 + k * (a2 * b1)) * m);
}

/// Multiplying fractions equal to `a1/b1` and `a2/b2` gives one equal to `(a1 a2) / (b1 b2)`.
#[verifier::rlimit(40)]
proof fn lemma_ratio_mul(x1: int, y1: int, a1: int, b1: int, x2: int, y2: int, a2: int, b2: int, n: int, m: int)
    requires
        y1 > 0,
        y2 > 0,
        x1 * b1 == a1 * y1,
        x2 * b2 == a2 * y2,
        n * (y1 * y2) == (x1 * x2) * m,
    ensures
        n * (b1 * b2) == (a1 * a2) * m,
{
    let p = y1 * y2;
    assert(p > 0) by (nonlinear_arith)
        requires
            y1 > 0,
            y2 > 0,
            p == y1 * y2,
    ;
    assert(p * (n * (b1 * b2)) == (x1 * b1) * (x2 * b2) * m) by (nonlinear_arith)
        requires
            n * (y1 * y2) == (x1 * x2) * m,
            p == y1 * y2,
    ;
    assert((x1 * b1) * (x2 * b2) * m == (a1 * y1) * (a2 * y2) * m) by {
        assert(x1 * b1 == a1 * y1);
        assert(x2 * b2 == a2 * y2);
    }
    assert((a1 * y1) * (a2 * y2) * m == p * ((a1 * a2) * m)) by (nonlinear_arith)
        requires
            p == y1 * y2,
    ;
    lemma_cancel(p, n * (b1 * b2), (a1 * a2) * m);
}

/// Dividing a fraction equal to `a1/b1` by one equal to `a2/b2` gives one equal to
/// `(a1 b2) / (b1 a2)`.
proof fn lemma_ratio_div(x1: int, y1: int, a1: int, b1: int, x2: int, y2: int, a2: int, b2: int, n: int, m: int)
    requires
        y1 > 0,
        y2 > 0,
        x1 * b1 == a1 * y1,
        x2 * b2 == a2 * y2,
        n * (y1 * x2) == (x1 * y2) * m,
    ensures
        n * (b1 * a2) == (a1 * b2) * m,
{
    let p = y1 * y2;
    assert(p > 0) by (nonlinear_arith)
        requires
            y1 > 0,
            y2 > 0,
            p == y1 * y2,
    ;
    assert(p * (n * (b1 * a2)) == (n * y1 * b1) * (a2 * y2)) by (nonlinear_arith)
        requires
            p == y1 * y2,
    ;
    assert((n * y1 * b1) * (a2 * y2) == (n * y1 * b1) * (x2 * b2));
    assert((n * y1 * b1) * (x2 * b2) == (n * (y1 * x2)) * (b1 * b2)) by (nonlinear_arith);
    assert((n * (y1 * x2)) * (b1 * b2) == ((x1 * y2) * m) * (b1 * b2));
    assert(((x1 * y2) * m) * (b1 * b2) == (x1 * b1) * (y2 * b2 * m)) by (nonlinear_arith);
    assert((x1 * b1) * (y2 * b2 * m) == (a1 * y1) * (y2 * b2 * m));
    assert((a1 * y1) * (y2 * b2 * m) == p * ((a1 * b2) * m)) by (nonlinear_arith)
        requires
            p == y1 * y2,
    ;
    lemma_cancel(p, n * (b1 * a2), (a1 * b2) * m);
}

} // verus!
