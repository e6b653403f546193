//! Parsing: recursive descent over Unicode scalar values.
//!
//! The `sp_*` functions are the specification: a mathematical parser for
//! the exact JSON grammar, producing either a value and the offset just
//! past it, or the error the executable parser reports, position included.
//! The `Parser` methods below mirror them one for one and are proved to
//! return exactly what the specification says.

use vstd::prelude::*;
use crate::num::{
    all_zero, canon_digits, canon_exp, count_lead_zeros, count_trail_zeros, dec_val_sat,
    ge_threshold, num_too_big, num_wf, Num, EXP_MIN, EXP_SAT,
};
use crate::scan::{col_at, err_at, line_at, State};
use crate::stringify::{chars_to_string, dec_text, write_dec};
use crate::value::{
    arr_view, lemma_char_u32, lemma_obj_insert_wf, lemma_swf_list_snoc, lex_lt, obj_insert,
    obj_sorted, obj_view, swf, swf_list, swf_members, SpecVal, Value,
};
use vstd::string::StrSliceExecFns;

verus! {

/// A parse failure: what went wrong and where.
#[derive(Debug, PartialEq, Eq, Clone, Copy, Structural)]
pub struct ParseError {
    pub kind: ParseErrorKind,
    pub position: ParseErrorPosition,
}

/// The four ways a parse can fail.
#[derive(Debug, PartialEq, Eq, Clone, Copy, Structural)]
pub enum ParseErrorKind {
    PrematureEof,
    UnexpectedChar,
    TooBigNumber,
    InvalidUtf16SurrogatePair,
}

/// Where a parse failed: 1-based line, 1-based column in scalar values.
#[derive(Debug, PartialEq, Eq, Clone, Copy, Structural)]
pub struct ParseErrorPosition {
    pub line: usize,
    pub column: usize,
}

/// JSON inter-token whitespace.
pub open spec fn is_ws(c: char) -> bool {
    c == ' ' || c == '\n' || c == '\r' || c == '\t'
}

/// Decimal digit.
pub open spec fn is_digit(c: char) -> bool {
    '0' <= c && c <= '9'
}

/// Numeric value of a decimal digit character.
pub open spec fn digit_val(c: char) -> u8 {
    (c as int - 48) as u8
}

/// Offset after skipping whitespace from `i`.
pub open spec fn sp_ws(s: Seq<char>, i: int) -> int
    decreases s.len() - i,
{
    if 0 <= i < s.len() && is_ws(s[i]) {
        sp_ws(s, i + 1)
    } else {
        i
    }
}

/// Matching the fixed text `t` at `i`: offset past it, or the error at the
/// first offending character.
pub open spec fn sp_expect(s: Seq<char>, i: int, t: Seq<char>) -> Result<int, ParseError>
    decreases t.len(),
{
    if t.len() == 0 {
        Ok(i)
    } else if i >= s.len() {
        Err(err_at(s, i, ParseErrorKind::PrematureEof))
    } else if s[i] != t[0] {
        Err(err_at(s, i, ParseErrorKind::UnexpectedChar))
    } else {
        sp_expect(s, i + 1, t.subrange(1, t.len() as int))
    }
}

/// Value of a hexadecimal digit character, `-1` if it is none.
pub open spec fn hex_val(c: char) -> int {
    if '0' <= c && c <= '9' {
        c as int - 48
    } else if 'a' <= c && c <= 'f' {
        c as int - 87
    } else if 'A' <= c && c <= 'F' {
        c as int - 55
    } else {
        -1
    }
}

/// Four hexadecimal digits at `i`: their value and the offset past them.
pub open spec fn sp_hex4(s: Seq<char>, i: int) -> Result<(int, int), ParseError> {
    if i >= s.len() {
        Err(err_at(s, i, ParseErrorKind::PrematureEof))
    } else if hex_val(s[i]) < 0 {
        Err(err_at(s, i, ParseErrorKind::UnexpectedChar))
    } else if i + 1 >= s.len() {
        Err(err_at(s, i + 1, ParseErrorKind::PrematureEof))
    } else if hex_val(s[i + 1]) < 0 {
        Err(err_at(s, i + 1, ParseErrorKind::UnexpectedChar))
    } else if i + 2 >= s.len() {
        Err(err_at(s, i + 2, ParseErrorKind::PrematureEof))
    } else if hex_val(s[i + 2]) < 0 {
        Err(err_at(s, i + 2, ParseErrorKind::UnexpectedChar))
    } else if i + 3 >= s.len() {
        Err(err_at(s, i + 3, ParseErrorKind::PrematureEof))
    } else if hex_val(s[i + 3]) < 0 {
        Err(err_at(s, i + 3, ParseErrorKind::UnexpectedChar))
    } else {
        Ok(
            (
                4096 * hex_val(s[i]) + 256 * hex_val(s[i + 1]) + 16 * hex_val(s[i + 2]) + hex_val(
                    s[i + 3],
                ),
                i + 4,
            ),
        )
    }
}

/// The characters that may follow a backslash as a one-letter escape.
pub open spec fn is_short_escape(c: char) -> bool {
    c == '"' || c == '\\' || c == '/' || c == 'b' || c == 'f' || c == 'n' || c == 'r' || c == 't'
}

/// What a one-letter escape denotes.
pub open spec fn esc_map(c: char) -> char {
    if c == 'b' {
        '\u{8}'
    } else if c == 'f' {
        '\u{c}'
    } else if c == 'n' {
        '\n'
    } else if c == 'r' {
        '\r'
    } else if c == 't' {
        '\t'
    } else {
        c
    }
}

/// UTF-16 high (leading) surrogate.
pub open spec fn is_high_surrogate(u: int) -> bool {
    0xD800 <= u < 0xDC00
}

/// UTF-16 low (trailing) surrogate.
pub open spec fn is_low_surrogate(u: int) -> bool {
    0xDC00 <= u < 0xE000
}

/// Scalar value encoded by a surrogate pair.
pub open spec fn combine_surrogates(hi: int, lo: int) -> char {
    (0x10000 + (hi - 0xD800) * 0x400 + (lo - 0xDC00)) as char
}

/// An escape sequence starting with the backslash at `i`: the character it
/// denotes and the offset past it.  A `\u` escape carrying a surrogate must
/// be a high surrogate completed by a low one; otherwise the error is
/// `InvalidUtf16SurrogatePair`, positioned at this escape's backslash.
pub open spec fn sp_escape(s: Seq<char>, i: int) -> Result<(char, int), ParseError> {
    if i >= s.len() {
        Err(err_at(s, i, ParseErrorKind::PrematureEof))
    } else if s[i] != '\\' {
        Err(err_at(s, i, ParseErrorKind::UnexpectedChar))
    } else if i + 1 >= s.len() {
        Err(err_at(s, i + 1, ParseErrorKind::PrematureEof))
    } else if is_short_escape(s[i + 1]) {
        Ok((esc_map(s[i + 1]), i + 2))
    } else if s[i + 1] == 'u' {
        match sp_hex4(s, i + 2) {
            Err(e) => Err(e),
            Ok((u, j)) => {
                if !is_high_surrogate(u) && !is_low_surrogate(u) {
                    Ok((u as char, j))
                } else if j >= s.len() {
                    Err(err_at(s, j, ParseErrorKind::PrematureEof))
                } else if s[j] != '\\' {
                    Err(err_at(s, j, ParseErrorKind::UnexpectedChar))
                } else if j + 1 >= s.len() {
                    Err(err_at(s, j + 1, ParseErrorKind::PrematureEof))
                } else if s[j + 1] != 'u' {
                    Err(err_at(s, j + 1, ParseErrorKind::UnexpectedChar))
                } else {
                    match sp_hex4(s, j + 2) {
                        Err(e) => Err(e),
                        Ok((u2, k)) => {
                            if is_high_surrogate(u) && is_low_surrogate(u2) {
                                Ok((combine_surrogates(u, u2), k))
                            } else {
                                Err(err_at(s, i, ParseErrorKind::InvalidUtf16SurrogatePair))
                            }
                        },
                    }
                }
            },
        }
    } else {
        Err(err_at(s, i + 1, ParseErrorKind::UnexpectedChar))
    }
}

/// The characters of a string literal from offset `i` (just past the
/// opening quote) to its closing quote: the decoded characters and the
/// offset past the quote.
pub open spec fn sp_str_rest(s: Seq<char>, i: int) -> Result<(Seq<char>, int), ParseError>
    decreases s.len() - i,
{
    if i < 0 || i >= s.len() {
        Err(err_at(s, i, ParseErrorKind::PrematureEof))
    } else if s[i] == '"' {
        Ok((Seq::empty(), i + 1))
    } else if s[i] == '\\' {
        match sp_escape(s, i) {
            Err(e) => Err(e),
            Ok((c, j)) => {
                if i < j <= s.len() {
                    match sp_str_rest(s, j) {
                        Err(e) => Err(e),
                        Ok((t, k)) => Ok((seq![c] + t, k)),
                    }
                } else {
                    Err(err_at(s, i, ParseErrorKind::PrematureEof))
                }
            },
        }
    } else if (s[i] as int) >= 32 {
        match sp_str_rest(s, i + 1) {
            Err(e) => Err(e),
            Ok((t, k)) => Ok((seq![s[i]] + t, k)),
        }
    } else {
        Err(err_at(s, i, ParseErrorKind::UnexpectedChar))
    }
}

/// A string literal starting with the quote at `i`.
pub open spec fn sp_string(s: Seq<char>, i: int) -> Result<(Seq<char>, int), ParseError> {
    if i >= s.len() {
        Err(err_at(s, i, ParseErrorKind::PrematureEof))
    } else if s[i] != '"' {
        Err(err_at(s, i, ParseErrorKind::UnexpectedChar))
    } else {
        sp_str_rest(s, i + 1)
    }
}

/// The maximal run of decimal digits at `i`: their values and the offset
/// past them.
pub open spec fn sp_digit_run(s: Seq<char>, i: int) -> (Seq<u8>, int)
    decreases s.len() - i,
{
    if 0 <= i < s.len() && is_digit(s[i]) {
        let r = sp_digit_run(s, i + 1);
        (seq![digit_val(s[i])] + r.0, r.1)
    } else {
        (Seq::empty(), i)
    }
}

/// The integer-part digits at `i`: a lone `0`, or a nonzero digit followed
/// by any further digits.
pub open spec fn sp_int_digits(s: Seq<char>, i: int) -> Result<(Seq<u8>, int), ParseError> {
    if i >= s.len() {
        Err(err_at(s, i, ParseErrorKind::PrematureEof))
    } else if s[i] == '0' {
        Ok((seq![0u8], i + 1))
    } else if is_digit(s[i]) {
        Ok(sp_digit_run(s, i))
    } else {
        Err(err_at(s, i, ParseErrorKind::UnexpectedChar))
    }
}

/// The optional fraction at `i`: a dot demands at least one digit.
pub open spec fn sp_frac(s: Seq<char>, i: int) -> Result<(Seq<u8>, int), ParseError> {
    if 0 <= i < s.len() && s[i] == '.' {
        if i + 1 >= s.len() {
            Err(err_at(s, i + 1, ParseErrorKind::PrematureEof))
        } else if !is_digit(s[i + 1]) {
            Err(err_at(s, i + 1, ParseErrorKind::UnexpectedChar))
        } else {
            Ok(sp_digit_run(s, i + 1))
        }
    } else {
        Ok((Seq::empty(), i))
    }
}

/// The optional exponent at `i`: `e` or `E`, an optional sign, then at
/// least one digit; yields the sign, the digits and the offset past them.
pub open spec fn sp_exp_part(s: Seq<char>, i: int) -> Result<(bool, Seq<u8>, int), ParseError> {
    if 0 <= i < s.len() && (s[i] == 'e' || s[i] == 'E') {
        let eneg = i + 1 < s.len() && s[i + 1] == '-';
        let j = if i + 1 < s.len() && (s[i + 1] == '+' || s[i + 1] == '-') {
            i + 2
        } else {
            i + 1
        };
        if j >= s.len() {
            Err(err_at(s, j, ParseErrorKind::PrematureEof))
        } else if !is_digit(s[j]) {
            Err(err_at(s, j, ParseErrorKind::UnexpectedChar))
        } else {
            let r = sp_digit_run(s, j);
            Ok((eneg, r.0, r.1))
        }
    } else {
        Ok((false, Seq::empty(), i))
    }
}

/// A number literal at `i`, scanned by the grammar and converted to the
/// canonical decimal it denotes.  A magnitude past the binary64 overflow
/// threshold is `TooBigNumber`, positioned at the start of the literal;
/// an exponent below the clamp bound is clamped.
pub open spec fn sp_number(s: Seq<char>, i: int) -> Result<(SpecVal, int), ParseError> {
    let neg = 0 <= i < s.len() && s[i] == '-';
    let i1 = if neg {
        i + 1
    } else {
        i
    };
    match sp_int_digits(s, i1) {
        Err(e) => Err(e),
        Ok((ints, i2)) => match sp_frac(s, i2) {
            Err(e) => Err(e),
            Ok((fracs, i3)) => match sp_exp_part(s, i3) {
                Err(e) => Err(e),
                Ok((eneg, edigs, i4)) => {
                    let dall = ints + fracs;
                    if all_zero(dall) {
                        Ok((SpecVal::NumV { neg: false, digits: Seq::empty(), exp: 0 }, i4))
                    } else {
                        let digs = canon_digits(dall);
                        let e = canon_exp(dall, fracs.len() as int, eneg, edigs);
                        if num_too_big(digs, e) {
                            Err(err_at(s, i, ParseErrorKind::TooBigNumber))
                        } else {
                            let ec = if e < EXP_MIN as int {
                                EXP_MIN as int
                            } else {
                                e
                            };
                            Ok((SpecVal::NumV { neg, digits: digs, exp: ec }, i4))
                        }
                    }
                },
            },
        },
    }
}

/// A value at `i`, dispatched on its first character.
pub open spec fn sp_value(s: Seq<char>, i: int) -> Result<(SpecVal, int), ParseError>
    decreases s.len() - i, 1int,
{
    if i < 0 || i >= s.len() {
        Err(err_at(s, i, ParseErrorKind::PrematureEof))
    } else {
        let c = s[i];
        if c == 'n' {
            match sp_expect(s, i, seq!['n', 'u', 'l', 'l']) {
                Err(e) => Err(e),
                Ok(j) => Ok((SpecVal::NullV, j)),
            }
        } else if c == 't' {
            match sp_expect(s, i, seq!['t', 'r', 'u', 'e']) {
                Err(e) => Err(e),
                Ok(j) => Ok((SpecVal::BoolV(true), j)),
            }
        } else if c == 'f' {
            match sp_expect(s, i, seq!['f', 'a', 'l', 's', 'e']) {
                Err(e) => Err(e),
                Ok(j) => Ok((SpecVal::BoolV(false), j)),
            }
        } else if c == '-' || is_digit(c) {
            sp_number(s, i)
        } else if c == '"' {
            match sp_string(s, i) {
                Err(e) => Err(e),
                Ok((t, j)) => Ok((SpecVal::StrV(t), j)),
            }
        } else if c == '[' {
            sp_array(s, i)
        } else if c == '{' {
            sp_object(s, i)
        } else {
            Err(err_at(s, i, ParseErrorKind::UnexpectedChar))
        }
    }
}

/// An element: a value with whitespace on both sides.
pub open spec fn sp_element(s: Seq<char>, i: int) -> Result<(SpecVal, int), ParseError>
    decreases s.len() - i, 2int,
{
    if i < 0 {
        Err(err_at(s, i, ParseErrorKind::PrematureEof))
    } else {
        let j = sp_ws(s, i);
        if j < i || j > s.len() {
            Err(err_at(s, i, ParseErrorKind::PrematureEof))
        } else {
            match sp_value(s, j) {
                Err(e) => Err(e),
                Ok((v, k)) => Ok((v, sp_ws(s, k))),
            }
        }
    }
}

/// The elements of an array from `i` (just past `[` and leading
/// whitespace, or past a separator): `]` closes, otherwise elements follow
/// separated by commas.
pub open spec fn sp_arr_items(s: Seq<char>, i: int, first: bool) -> Result<
    (Seq<SpecVal>, int),
    ParseError,
>
    decreases s.len() - i, 4int,
{
    if i < 0 || i >= s.len() {
        Err(err_at(s, i, ParseErrorKind::PrematureEof))
    } else if s[i] == ']' {
        Ok((Seq::empty(), i + 1))
    } else if !first && s[i] != ',' {
        Err(err_at(s, i, ParseErrorKind::UnexpectedChar))
    } else {
        let j = if first {
            i
        } else {
            i + 1
        };
        match sp_element(s, j) {
            Err(e) => Err(e),
            Ok((v, k)) => {
                if j < k <= s.len() {
                    match sp_arr_items(s, k, false) {
                        Err(e) => Err(e),
                        Ok((rest, m)) => Ok((seq![v] + rest, m)),
                    }
                } else {
                    Err(err_at(s, i, ParseErrorKind::PrematureEof))
                }
            },
        }
    }
}

/// An array starting with the bracket at `i`.
pub open spec fn sp_array(s: Seq<char>, i: int) -> Result<(SpecVal, int), ParseError>
    decreases s.len() - i, 0int,
{
    if i < 0 || i >= s.len() {
        Err(err_at(s, i, ParseErrorKind::PrematureEof))
    } else if s[i] != '[' {
        Err(err_at(s, i, ParseErrorKind::UnexpectedChar))
    } else {
        let j = sp_ws(s, i + 1);
        if j <= i || j > s.len() {
            Err(err_at(s, i, ParseErrorKind::PrematureEof))
        } else {
            match sp_arr_items(s, j, true) {
                Err(e) => Err(e),
                Ok((items, k)) => Ok((SpecVal::ArrV(items), k)),
            }
        }
    }
}

/// One object member: whitespace, a string key, whitespace, a colon, then
/// an element.
pub open spec fn sp_member(s: Seq<char>, i: int) -> Result<
    ((Seq<char>, SpecVal), int),
    ParseError,
>
    decreases s.len() - i, 3int,
{
    if i < 0 {
        Err(err_at(s, i, ParseErrorKind::PrematureEof))
    } else {
        let j = sp_ws(s, i);
        if j < i || j > s.len() {
            Err(err_at(s, i, ParseErrorKind::PrematureEof))
        } else {
            match sp_string(s, j) {
                Err(e) => Err(e),
                Ok((key, k)) => {
                    let m = sp_ws(s, k);
                    if m >= s.len() {
                        Err(err_at(s, m, ParseErrorKind::PrematureEof))
                    } else if s[m] != ':' {
                        Err(err_at(s, m, ParseErrorKind::UnexpectedChar))
                    } else if m + 1 <= i || m + 1 > s.len() {
                        Err(err_at(s, i, ParseErrorKind::PrematureEof))
                    } else {
                        match sp_element(s, m + 1) {
                            Err(e) => Err(e),
                            Ok((v, end)) => Ok(((key, v), end)),
                        }
                    }
                },
            }
        }
    }
}

/// The members of an object from `i`, accumulated by sorted last-wins
/// insertion: `}` closes, otherwise members follow separated by commas.
pub open spec fn sp_obj_items(
    s: Seq<char>,
    i: int,
    first: bool,
    acc: Seq<(Seq<char>, SpecVal)>,
) -> Result<(Seq<(Seq<char>, SpecVal)>, int), ParseError>
    decreases s.len() - i, 4int,
{
    if i < 0 || i >= s.len() {
        Err(err_at(s, i, ParseErrorKind::PrematureEof))
    } else if s[i] == '}' {
        Ok((acc, i + 1))
    } else if !first && s[i] != ',' {
        Err(err_at(s, i, ParseErrorKind::UnexpectedChar))
    } else {
        let j = if first {
            i
        } else {
            i + 1
        };
        match sp_member(s, j) {
            Err(e) => Err(e),
            Ok(((key, v), k)) => {
                if j < k <= s.len() {
                    sp_obj_items(s, k, false, obj_insert(acc, key, v))
                } else {
                    Err(err_at(s, i, ParseErrorKind::PrematureEof))
                }
            },
        }
    }
}

/// An object starting with the brace at `i`.
pub open spec fn sp_object(s: Seq<char>, i: int) -> Result<(SpecVal, int), ParseError>
    decreases s.len() - i, 0int,
{
    if i < 0 || i >= s.len() {
        Err(err_at(s, i, ParseErrorKind::PrematureEof))
    } else if s[i] != '{' {
        Err(err_at(s, i, ParseErrorKind::UnexpectedChar))
    } else {
        let j = sp_ws(s, i + 1);
        if j <= i || j > s.len() {
            Err(err_at(s, i, ParseErrorKind::PrematureEof))
        } else {
            match sp_obj_items(s, j, true, Seq::empty()) {
                Err(e) => Err(e),
                Ok((members, k)) => Ok((SpecVal::ObjV(members), k)),
            }
        }
    }
}

/// A whole document: one element, then the end of the input; anything left
/// over is `UnexpectedChar` there.
pub open spec fn sp_parse(s: Seq<char>) -> Result<SpecVal, ParseError> {
    match sp_element(s, 0) {
        Err(e) => Err(e),
        Ok((v, j)) => if j < s.len() {
            Err(err_at(s, j, ParseErrorKind::UnexpectedChar))
        } else {
            Ok(v)
        },
    }
}

/// Whitespace skipping stays within the input.
pub proof fn lemma_sp_ws_bounds(s: Seq<char>, i: int)
    requires
        0 <= i <= s.len(),
    ensures
        i <= sp_ws(s, i) <= s.len(),
    decreases s.len() - i,
{
    if i < s.len() && is_ws(s[i]) {
        lemma_sp_ws_bounds(s, i + 1);
    }
}

/// A matched fixed text advances by its length.
pub proof fn lemma_sp_expect_advance(s: Seq<char>, i: int, t: Seq<char>)
    requires
        0 <= i <= s.len(),
    ensures
        sp_expect(s, i, t) matches Ok(j) ==> j == i + t.len() && j <= s.len(),
    decreases t.len(),
{
    if t.len() > 0 && i < s.len() && s[i] == t[0] {
        lemma_sp_expect_advance(s, i + 1, t.subrange(1, t.len() as int));
    }
}

/// A successful escape consumes at least two characters.
pub proof fn lemma_sp_escape_progress(s: Seq<char>, i: int)
    requires
        0 <= i,
    ensures
        sp_escape(s, i) matches Ok((c, j)) ==> i + 2 <= j <= s.len(),
{
}

/// A successful string body ends past where it began, within the input.
pub proof fn lemma_sp_str_rest_progress(s: Seq<char>, i: int)
    requires
        0 <= i,
    ensures
        sp_str_rest(s, i) matches Ok((t, j)) ==> i + 1 <= j <= s.len(),
    decreases s.len() - i,
{
    if 0 <= i < s.len() {
        if s[i] == '\\' {
            lemma_sp_escape_progress(s, i);
            if let Ok((c, j)) = sp_escape(s, i) {
                if i < j <= s.len() {
                    lemma_sp_str_rest_progress(s, j);
                }
            }
        } else if s[i] != '"' && (s[i] as int) >= 32 {
            lemma_sp_str_rest_progress(s, i + 1);
        }
    }
}

/// A successful string literal consumes at least its two quotes.
pub proof fn lemma_sp_string_progress(s: Seq<char>, i: int)
    requires
        0 <= i,
    ensures
        sp_string(s, i) matches Ok((t, j)) ==> i + 2 <= j <= s.len(),
{
    if i < s.len() && s[i] == '"' {
        lemma_sp_str_rest_progress(s, i + 1);
    }
}

/// A digit run stays within the input.
pub proof fn lemma_sp_digit_run_bounds(s: Seq<char>, i: int)
    requires
        0 <= i <= s.len(),
    ensures
        i <= sp_digit_run(s, i).1 <= s.len(),
    decreases s.len() - i,
{
    if i < s.len() && is_digit(s[i]) {
        lemma_sp_digit_run_bounds(s, i + 1);
    }
}

/// A successful number literal consumes at least one character.
pub proof fn lemma_sp_number_progress(s: Seq<char>, i: int)
    requires
        0 <= i,
    ensures
        sp_number(s, i) matches Ok((v, j)) ==> i + 1 <= j <= s.len(),
{
    let neg = 0 <= i < s.len() && s[i] == '-';
    let i1 = if neg {
        i + 1
    } else {
        i
    };
    if i1 <= s.len() {
        if i1 < s.len() && s[i1] != '0' && is_digit(s[i1]) {
            lemma_sp_digit_run_bounds(s, i1 + 1);
        }
        if let Ok((ints, i2)) = sp_int_digits(s, i1) {
            assert(i1 + 1 <= i2 <= s.len());
            if 0 <= i2 < s.len() && s[i2] == '.' && i2 + 1 < s.len() && is_digit(s[i2 + 1]) {
                lemma_sp_digit_run_bounds(s, i2 + 1);
            }
            if let Ok((fracs, i3)) = sp_frac(s, i2) {
                assert(i2 <= i3 <= s.len());
                if 0 <= i3 < s.len() && (s[i3] == 'e' || s[i3] == 'E') {
                    let j = if i3 + 1 < s.len() && (s[i3 + 1] == '+' || s[i3 + 1] == '-') {
                        i3 + 2
                    } else {
                        i3 + 1
                    };
                    if j < s.len() && is_digit(s[j]) {
                        lemma_sp_digit_run_bounds(s, j);
                    }
                }
                if let Ok((eneg, edigs, i4)) = sp_exp_part(s, i3) {
                    assert(i3 <= i4 <= s.len());
                }
            }
        }
    }
}

/// A successful value consumes at least one character; a successful
/// element may begin and end with whitespace but still moves forward and
/// stays within the input.
pub proof fn lemma_sp_value_progress(s: Seq<char>, i: int)
    requires
        0 <= i,
    ensures
        sp_value(s, i) matches Ok((v, j)) ==> i + 1 <= j <= s.len(),
        sp_element(s, i) matches Ok((v, j)) ==> i + 1 <= j <= s.len(),
        sp_array(s, i) matches Ok((v, j)) ==> i + 1 <= j <= s.len(),
        sp_object(s, i) matches Ok((v, j)) ==> i + 1 <= j <= s.len(),
        sp_member(s, i) matches Ok((kv, j)) ==> i + 1 <= j <= s.len(),
        forall|first: bool, acc: Seq<(Seq<char>, SpecVal)>|
            #![trigger sp_obj_items(s, i, first, acc)]
            {
                &&& (sp_arr_items(s, i, first) matches Ok((items, j)) ==> i + 1 <= j <= s.len())
                &&& (sp_obj_items(s, i, first, acc) matches Ok((ms, j)) ==> i + 1 <= j <= s.len())
            },
    decreases s.len() - i, 5int,
{
    lemma_sp_value_progress_value(s, i);
    lemma_sp_value_progress_element(s, i);
    lemma_sp_value_progress_array(s, i);
    lemma_sp_value_progress_object(s, i);
    lemma_sp_value_progress_member(s, i);
    assert forall|first: bool, acc: Seq<(Seq<char>, SpecVal)>|
        #![trigger sp_obj_items(s, i, first, acc)]
        {
            &&& (sp_arr_items(s, i, first) matches Ok((items, j)) ==> i + 1 <= j <= s.len())
            &&& (sp_obj_items(s, i, first, acc) matches Ok((ms, j)) ==> i + 1 <= j <= s.len())
        } by {
        lemma_sp_value_progress_arr_items(s, i, first);
        lemma_sp_value_progress_obj_items(s, i, first, acc);
    }
}

proof fn lemma_sp_value_progress_value(s: Seq<char>, i: int)
    requires
        0 <= i,
    ensures
        sp_value(s, i) matches Ok((v, j)) ==> i + 1 <= j <= s.len(),
    decreases s.len() - i, 2int,
{
    if 0 <= i < s.len() {
        let c = s[i];
        if c == 'n' || c == 't' || c == 'f' {
            lemma_sp_expect_advance(s, i, seq!['n', 'u', 'l', 'l']);
            lemma_sp_expect_advance(s, i, seq!['t', 'r', 'u', 'e']);
            lemma_sp_expect_advance(s, i, seq!['f', 'a', 'l', 's', 'e']);
        } else if c == '-' || is_digit(c) {
            lemma_sp_number_progress(s, i);
        } else if c == '"' {
            lemma_sp_string_progress(s, i);
        } else if c == '[' {
            lemma_sp_value_progress_array(s, i);
        } else if c == '{' {
            lemma_sp_value_progress_object(s, i);
        }
    }
}

proof fn lemma_sp_value_progress_element(s: Seq<char>, i: int)
    requires
        0 <= i,
    ensures
        sp_element(s, i) matches Ok((v, j)) ==> i + 1 <= j <= s.len(),
    decreases s.len() - i, 3int,
{
    if i <= s.len() {
        lemma_sp_ws_bounds(s, i);
        let j = sp_ws(s, i);
        lemma_sp_value_progress_value(s, j);
        if let Ok((v, k)) = sp_value(s, j) {
            lemma_sp_ws_bounds(s, k);
        }
    }
}

proof fn lemma_sp_value_progress_array(s: Seq<char>, i: int)
    requires
        0 <= i,
    ensures
        sp_array(s, i) matches Ok((v, j)) ==> i + 1 <= j <= s.len(),
    decreases s.len() - i, 1int,
{
    if 0 <= i < s.len() && s[i] == '[' {
        lemma_sp_ws_bounds(s, i + 1);
        let j = sp_ws(s, i + 1);
        if i < j <= s.len() {
            lemma_sp_value_progress_arr_items(s, j, true);
        }
    }
}

proof fn lemma_sp_value_progress_arr_items(s: Seq<char>, i: int, first: bool)
    requires
        0 <= i,
    ensures
        sp_arr_items(s, i, first) matches Ok((items, j)) ==> i + 1 <= j <= s.len(),
    decreases s.len() - i, 5int,
{
    if 0 <= i < s.len() && s[i] != ']' && (first || s[i] == ',') {
        let j = if first {
            i
        } else {
            i + 1
        };
        lemma_sp_value_progress_element(s, j);
        if let Ok((v, k)) = sp_element(s, j) {
            if j < k <= s.len() {
                lemma_sp_value_progress_arr_items(s, k, false);
            }
        }
    }
}

proof fn lemma_sp_value_progress_member(s: Seq<char>, i: int)
    requires
        0 <= i,
    ensures
        sp_member(s, i) matches Ok((kv, j)) ==> i + 1 <= j <= s.len(),
    decreases s.len() - i, 4int,
{
    if i <= s.len() {
        lemma_sp_ws_bounds(s, i);
        let j = sp_ws(s, i);
        lemma_sp_string_progress(s, j);
        if let Ok((key, k)) = sp_string(s, j) {
            lemma_sp_ws_bounds(s, k);
            let m = sp_ws(s, k);
            if 0 <= m < s.len() && s[m] == ':' && i < m + 1 <= s.len() {
                lemma_sp_value_progress_element(s, m + 1);
            }
        }
    }
}

proof fn lemma_sp_value_progress_obj_items(
    s: Seq<char>,
    i: int,
    first: bool,
    acc: Seq<(Seq<char>, SpecVal)>,
)
    requires
        0 <= i,
    ensures
        sp_obj_items(s, i, first, acc) matches Ok((ms, j)) ==> i + 1 <= j <= s.len(),
    decreases s.len() - i, 5int,
{
    if 0 <= i < s.len() && s[i] != '}' && (first || s[i] == ',') {
        let j = if first {
            i
        } else {
            i + 1
        };
        lemma_sp_value_progress_member(s, j);
        if let Ok(((key, v), k)) = sp_member(s, j) {
            if j < k <= s.len() {
                lemma_sp_value_progress_obj_items(s, k, false, obj_insert(acc, key, v));
            }
        }
    }
}

proof fn lemma_sp_value_progress_object(s: Seq<char>, i: int)
    requires
        0 <= i,
    ensures
        sp_object(s, i) matches Ok((v, j)) ==> i + 1 <= j <= s.len(),
    decreases s.len() - i, 1int,
{
    if 0 <= i < s.len() && s[i] == '{' {
        lemma_sp_ws_bounds(s, i + 1);
        let j = sp_ws(s, i + 1);
        if i < j <= s.len() {
            lemma_sp_value_progress_obj_items(s, j, true, Seq::empty());
        }
    }
}

/// Relies on `char::from_u32`: every code outside the surrogate range and
/// at most 0x10FFFF is a Unicode scalar value, and the conversion returns
/// exactly that character.
#[verifier::external_body]
fn char_from_scalar(u: u32) -> (r: char)
    requires
        u < 0xD800 || (0xE000 <= u && u <= 0x10FFFF),
    ensures
        r == u as char,
        r as u32 == u,
{
    char::from_u32(u).unwrap()
}

/// The characters of a borrowed string, as a vector.
fn str_to_chars(text: &str) -> (r: Vec<char>)
    ensures
        r@ == text@,
{
    let n = text.unicode_len();
    let mut out: Vec<char> = Vec::new();
    let mut k: usize = 0;
    while k < n
        invariant
            k <= n,
            n == text@.len(),
            out@ == text@.subrange(0, k as int),
        decreases n - k,
    {
        out.push(text.get_char(k));
        proof {
            assert(text@.subrange(0, k as int + 1) =~= text@.subrange(0, k as int) + seq![
                text@[k as int],
            ]);
        }
        k = k + 1;
    }
    proof {
        assert(text@.subrange(0, n as int) =~= text@);
    }
    out
}

/// Executable decimal-digit value.
fn digit_val_exec(c: char) -> (r: u8)
    requires
        is_digit(c),
    ensures
        r == digit_val(c),
        r <= 9,
{
    proof {
        lemma_char_u32(c);
    }
    ((c as u32) - 48) as u8
}

/// Executable hexadecimal-digit value, `None` for other characters.
fn hex_val_exec(c: char) -> (r: Option<u8>)
    ensures
        r is Some <==> hex_val(c) >= 0,
        r is Some ==> r->0 as int == hex_val(c) && r->0 <= 15,
{
    proof {
        lemma_char_u32(c);
    }
    if c >= '0' && c <= '9' {
        Some(((c as u32) - 48) as u8)
    } else if c >= 'a' && c <= 'f' {
        Some(((c as u32) - 87) as u8)
    } else if c >= 'A' && c <= 'F' {
        Some(((c as u32) - 55) as u8)
    } else {
        None
    }
}

/// The recursive-descent parser: a scan state driven by one method per
/// grammar production.
pub struct Parser {
    pub state: State,
}

impl Parser {
    /// The input being parsed.
    pub open spec fn src(&self) -> Seq<char> {
        self.state.input@
    }

    /// Current offset into the input.
    pub open spec fn at(&self) -> int {
        self.state.pos as int
    }

    /// The scanner invariant.
    pub open spec fn wf(&self) -> bool {
        self.state.wf()
    }

    /// A parser at the start of `text`.
    pub fn new(text: &str) -> (r: Parser)
        requires
            text@.len() < usize::MAX,
        ensures
            r.wf(),
            r.src() == text@,
            r.at() == 0,
    {
        Parser { state: State::new(str_to_chars(text)) }
    }

    /// Consumes whitespace.
    pub fn skip_ws(&mut self)
        requires
            old(self).wf(),
        ensures
            final(self).wf(),
            final(self).src() == old(self).src(),
            final(self).at() == sp_ws(old(self).src(), old(self).at()),
    {
        loop
            invariant
                self.wf(),
                self.src() == old(self).src(),
                sp_ws(self.src(), old(self).at()) == sp_ws(self.src(), self.at()),
            decreases self.src().len() - self.at(),
        {
            match self.state.peek_char() {
                Ok(c) => {
                    if c == ' ' || c == '\n' || c == '\r' || c == '\t' {
                        self.state.skip_char(c);
                    } else {
                        return;
                    }
                },
                Err(_) => {
                    return;
                },
            }
        }
    }

    /// Consumes exactly `expected`, or reports the error at the current
    /// position without consuming.
    pub fn expect_char(&mut self, expected: char) -> (r: Result<(), ParseError>)
        requires
            old(self).wf(),
        ensures
            final(self).wf(),
            final(self).src() == old(self).src(),
            old(self).at() < old(self).src().len() && old(self).src()[old(self).at()] == expected
                ==> r is Ok && final(self).at() == old(self).at() + 1,
            old(self).at() >= old(self).src().len() ==> r == Err::<(), ParseError>(
                err_at(old(self).src(), old(self).at(), ParseErrorKind::PrematureEof),
            ) && final(self).at() == old(self).at(),
            old(self).at() < old(self).src().len() && old(self).src()[old(self).at()] != expected
                ==> r == Err::<(), ParseError>(
                err_at(old(self).src(), old(self).at(), ParseErrorKind::UnexpectedChar),
            ) && final(self).at() == old(self).at(),
    {
        match self.state.peek_char() {
            Err(e) => Err(e),
            Ok(c) => {
                if c != expected {
                    Err(self.state.error(ParseErrorKind::UnexpectedChar))
                } else {
                    self.state.skip_char(c);
                    Ok(())
                }
            },
        }
    }

    /// Consumes exactly the text `t`.
    pub fn expect_str(&mut self, t: &str) -> (r: Result<(), ParseError>)
        requires
            old(self).wf(),
        ensures
            final(self).wf(),
            final(self).src() == old(self).src(),
            match sp_expect(old(self).src(), old(self).at(), t@) {
                Ok(j) => r is Ok && final(self).at() == j,
                Err(e) => r is Err && r->Err_0 == e,
            },
    {
        let n = t.unicode_len();
        proof {
            assert(t@.subrange(0, n as int) =~= t@);
        }
        let mut k: usize = 0;
        while k < n
            invariant
                self.wf(),
                self.src() == old(self).src(),
                k <= n,
                n == t@.len(),
                sp_expect(self.src(), old(self).at(), t@) == sp_expect(
                    self.src(),
                    self.at(),
                    t@.subrange(k as int, n as int),
                ),
            decreases n - k,
        {
            let c = t.get_char(k);
            match self.expect_char(c) {
                Err(e) => {
                    proof {
                        assert(t@.subrange(k as int, n as int)[0] == c);
                    }
                    return Err(e);
                },
                Ok(()) => {
                    proof {
                        assert(t@.subrange(k as int, n as int)[0] == c);
                        assert(t@.subrange(k as int, n as int).subrange(
                            1,
                            (n - k) as int,
                        ) =~= t@.subrange(k as int + 1, n as int));
                    }
                    k = k + 1;
                },
            }
        }
        proof {
            assert(t@.subrange(n as int, n as int) =~= Seq::<char>::empty());
        }
        Ok(())
    }

    /// Consumes four hexadecimal digits and returns their value.
    pub fn parse_hex_4(&mut self) -> (r: Result<u16, ParseError>)
        requires
            old(self).wf(),
        ensures
            final(self).wf(),
            final(self).src() == old(self).src(),
            match sp_hex4(old(self).src(), old(self).at()) {
                Ok((u, j)) => r is Ok && r->Ok_0 as int == u && final(self).at() == j,
                Err(e) => r is Err && r->Err_0 == e,
            },
    {
        let c0 = match self.state.peek_char() {
            Err(e) => {
                return Err(e);
            },
            Ok(c) => c,
        };
        let h0 = match hex_val_exec(c0) {
            None => {
                return Err(self.state.error(ParseErrorKind::UnexpectedChar));
            },
            Some(h) => h,
        };
        self.state.skip_char(c0);
        let c1 = match self.state.peek_char() {
            Err(e) => {
                return Err(e);
            },
            Ok(c) => c,
        };
        let h1 = match hex_val_exec(c1) {
            None => {
                return Err(self.state.error(ParseErrorKind::UnexpectedChar));
            },
            Some(h) => h,
        };
        self.state.skip_char(c1);
        let c2 = match self.state.peek_char() {
            Err(e) => {
                return Err(e);
            },
            Ok(c) => c,
        };
        let h2 = match hex_val_exec(c2) {
            None => {
                return Err(self.state.error(ParseErrorKind::UnexpectedChar));
            },
            Some(h) => h,
        };
        self.state.skip_char(c2);
        let c3 = match self.state.peek_char() {
            Err(e) => {
                return Err(e);
            },
            Ok(c) => c,
        };
        let h3 = match hex_val_exec(c3) {
            None => {
                return Err(self.state.error(ParseErrorKind::UnexpectedChar));
            },
            Some(h) => h,
        };
        self.state.skip_char(c3);
        let v: u32 = 4096 * (h0 as u32) + 256 * (h1 as u32) + 16 * (h2 as u32) + (h3 as u32);
        Ok(v as u16)
    }
}

impl Parser {
    /// Consumes one escape sequence and returns the character it denotes.
    pub fn parse_escape(&mut self) -> (r: Result<char, ParseError>)
        requires
            old(self).wf(),
        ensures
            final(self).wf(),
            final(self).src() == old(self).src(),
            match sp_escape(old(self).src(), old(self).at()) {
                Ok((c, j)) => r is Ok && r->Ok_0 == c && final(self).at() == j,
                Err(e) => r is Err && r->Err_0 == e,
            },
    {
        let pair_err = self.state.error(ParseErrorKind::InvalidUtf16SurrogatePair);
        match self.expect_char('\\') {
            Err(e) => {
                return Err(e);
            },
            Ok(()) => {},
        }
        let c = match self.state.peek_char() {
            Err(e) => {
                return Err(e);
            },
            Ok(c) => c,
        };
        if c == '"' || c == '\\' || c == '/' || c == 'b' || c == 'f' || c == 'n' || c == 'r'
            || c == 't' {
            self.state.skip_char(c);
            let mapped = if c == 'b' {
                '\u{8}'
            } else if c == 'f' {
                '\u{c}'
            } else if c == 'n' {
                '\n'
            } else if c == 'r' {
                '\r'
            } else if c == 't' {
                '\t'
            } else {
                c
            };
            return Ok(mapped);
        }
        if c == 'u' {
            self.state.skip_char(c);
            let u = match self.parse_hex_4() {
                Err(e) => {
                    return Err(e);
                },
                Ok(u) => u,
            };
            let uv = u as u32;
            if uv < 0xD800 || uv >= 0xE000 {
                let ch = char_from_scalar(uv);
                return Ok(ch);
            }
            match self.expect_char('\\') {
                Err(e) => {
                    return Err(e);
                },
                Ok(()) => {},
            }
            match self.expect_char('u') {
                Err(e) => {
                    return Err(e);
                },
                Ok(()) => {},
            }
            let u2 = match self.parse_hex_4() {
                Err(e) => {
                    return Err(e);
                },
                Ok(u2) => u2,
            };
            let u2v = u2 as u32;
            if uv < 0xDC00 && u2v >= 0xDC00 && u2v < 0xE000 {
                let code: u32 = 0x10000 + (uv - 0xD800) * 0x400 + (u2v - 0xDC00);
                let ch = char_from_scalar(code);
                return Ok(ch);
            }
            return Err(pair_err);
        }
        Err(self.state.error(ParseErrorKind::UnexpectedChar))
    }

    /// Consumes one string literal and returns its decoded characters.
    #[verifier::spinoff_prover]
    #[verifier::rlimit(100)]
    pub fn parse_string(&mut self) -> (r: Result<Vec<char>, ParseError>)
        requires
            old(self).wf(),
        ensures
            final(self).wf(),
            final(self).src() == old(self).src(),
            match sp_string(old(self).src(), old(self).at()) {
                Ok((t, j)) => r is Ok && r->Ok_0@ == t && final(self).at() == j,
                Err(e) => r is Err && r->Err_0 == e,
            },
    {
        match self.expect_char('"') {
            Err(e) => {
                return Err(e);
            },
            Ok(()) => {},
        }
        let ghost s = old(self).src();
        let ghost start = self.at();
        let ghost tot = sp_str_rest(s, start);
        let mut buf: Vec<char> = Vec::new();
        proof {
            if let Ok((t0, k0)) = sp_str_rest(s, start) {
                assert(Seq::<char>::empty() + t0 =~= t0);
            }
        }
        loop
            invariant
                self.wf(),
                s == old(self).src(),
                self.src() == s,
                tot == sp_str_rest(s, start),
                sp_string(s, old(self).at()) == tot,
                start <= self.at() <= s.len(),
                ({
                    let cur = sp_str_rest(s, self.at());
                    &&& (cur is Ok ==> tot is Ok && tot->Ok_0.0 == buf@ + cur->Ok_0.0
                        && tot->Ok_0.1 == cur->Ok_0.1)
                    &&& (cur is Err ==> tot == cur)
                }),
            decreases s.len() - self.at(),
        {
            let c = match self.state.peek_char() {
                Err(e) => {
                    return Err(e);
                },
                Ok(c) => c,
            };
            if c == '"' {
                self.state.skip_char(c);
                proof {
                    assert(buf@ + Seq::<char>::empty() =~= buf@);
                }
                return Ok(buf);
            }
            if c == '\\' {
                let ghost here = self.at();
                let ghost oldbuf = buf@;
                let ch = match self.parse_escape() {
                    Err(e) => {
                        return Err(e);
                    },
                    Ok(ch) => ch,
                };
                buf.push(ch);
                proof {
                    lemma_sp_escape_progress(s, here);
                    if let Ok((t2, k2)) = sp_str_rest(s, self.at()) {
                        assert((oldbuf + seq![ch]) + t2 =~= oldbuf + (seq![ch] + t2));
                    }
                }
            } else if (c as u32) >= 32 {
                let ghost oldbuf = buf@;
                self.state.skip_char(c);
                buf.push(c);
                proof {
                    lemma_char_u32(c);
                    if let Ok((t2, k2)) = sp_str_rest(s, self.at()) {
                        assert((oldbuf + seq![c]) + t2 =~= oldbuf + (seq![c] + t2));
                    }
                }
            } else {
                proof {
                    lemma_char_u32(c);
                }
                return Err(self.state.error(ParseErrorKind::UnexpectedChar));
            }
        }
    }

    /// Consumes a run of decimal digits, appending their values.
    fn digit_run(&mut self, dall: &mut Vec<u8>)
        requires
            old(self).wf(),
        ensures
            final(self).wf(),
            final(self).src() == old(self).src(),
            final(dall)@ == old(dall)@ + sp_digit_run(old(self).src(), old(self).at()).0,
            final(self).at() == sp_digit_run(old(self).src(), old(self).at()).1,
    {
        loop
            invariant
                self.wf(),
                self.src() == old(self).src(),
                sp_digit_run(self.src(), old(self).at()).1 == sp_digit_run(
                    self.src(),
                    self.at(),
                ).1,
                old(dall)@ + sp_digit_run(self.src(), old(self).at()).0 == dall@ + sp_digit_run(
                    self.src(),
                    self.at(),
                ).0,
            decreases self.src().len() - self.at(),
        {
            let c = match self.state.peek_char() {
                Err(_) => {
                    proof {
                        assert(dall@ + Seq::<u8>::empty() =~= dall@);
                        assert(old(dall)@ + sp_digit_run(self.src(), old(self).at()).0 =~= dall@);
                    }
                    return;
                },
                Ok(c) => c,
            };
            if c >= '0' && c <= '9' {
                let ghost oldd = dall@;
                let d = digit_val_exec(c);
                self.state.skip_char(c);
                dall.push(d);
                proof {
                    let rest = sp_digit_run(self.src(), self.at());
                    assert((oldd + seq![d]) + rest.0 =~= oldd + (seq![d] + rest.0));
                }
            } else {
                proof {
                    assert(dall@ + Seq::<u8>::empty() =~= dall@);
                    assert(old(dall)@ + sp_digit_run(self.src(), old(self).at()).0 =~= dall@);
                }
                return;
            }
        }
    }
}

/// Saturated value of a digit vector, as `dec_val_sat` defines it.
fn dec_sat(ds: &Vec<u8>) -> (r: i128)
    requires
        forall|i: int| 0 <= i < ds@.len() ==> #[trigger] ds@[i] <= 9,
    ensures
        r == dec_val_sat(ds@),
        0 <= r <= EXP_SAT,
{
    let mut acc: i128 = 0;
    let mut k: usize = 0;
    proof {
        assert(ds@.subrange(0, 0) =~= Seq::<u8>::empty());
    }
    while k < ds.len()
        invariant
            k <= ds@.len(),
            forall|i: int| 0 <= i < ds@.len() ==> #[trigger] ds@[i] <= 9,
            acc == dec_val_sat(ds@.subrange(0, k as int)),
            0 <= acc <= EXP_SAT,
        decreases ds@.len() - k,
    {
        let d = ds[k];
        let next: i128 = acc * 10 + d as i128;
        acc = if next >= EXP_SAT {
            EXP_SAT
        } else {
            next
        };
        proof {
            assert(ds@.subrange(0, k as int + 1).subrange(0, k as int) =~= ds@.subrange(
                0,
                k as int,
            ));
            assert(ds@.subrange(0, k as int + 1)[k as int] == ds@[k as int]);
        }
        k = k + 1;
    }
    proof {
        assert(ds@.subrange(0, ds@.len() as int) =~= ds@);
    }
    acc
}

/// Every digit a run yields is at most 9.
proof fn lemma_sp_digit_run_digits(s: Seq<char>, i: int)
    ensures
        forall|k: int|
            0 <= k < sp_digit_run(s, i).0.len() ==> #[trigger] sp_digit_run(s, i).0[k] <= 9,
    decreases s.len() - i,
{
    if 0 <= i < s.len() && is_digit(s[i]) {
        lemma_sp_digit_run_digits(s, i + 1);
        let run = sp_digit_run(s, i).0;
        let rest = sp_digit_run(s, i + 1).0;
        assert forall|k: int| 0 <= k < run.len() implies #[trigger] run[k] <= 9 by {
            if k == 0 {
                assert(run[0] == digit_val(s[i]));
            } else {
                assert(run[k] == rest[k - 1]);
            }
        }
    }
}

/// The exec count of leading zeros agrees with the spec.
pub(crate) proof fn lemma_count_lead(ds: Seq<u8>, k: int)
    requires
        0 <= k <= ds.len(),
        forall|x: int| 0 <= x < k ==> #[trigger] ds[x] == 0,
        k < ds.len() ==> ds[k] != 0,
    ensures
        count_lead_zeros(ds) == k,
    decreases k,
{
    if k > 0 {
        let tail = ds.subrange(1, ds.len() as int);
        assert forall|x: int| 0 <= x < k - 1 implies #[trigger] tail[x] == 0 by {
            assert(ds[x + 1] == 0);
        }
        lemma_count_lead(tail, k - 1);
    } else {
        if ds.len() > 0 {
            assert(ds[0] != 0);
        }
    }
}

/// The exec count of trailing zeros agrees with the spec.
pub(crate) proof fn lemma_count_trail(ds: Seq<u8>, t: int)
    requires
        0 <= t <= ds.len(),
        forall|x: int| ds.len() - t <= x < ds.len() ==> #[trigger] ds[x] == 0,
        t < ds.len() ==> ds[ds.len() - t - 1] != 0,
    ensures
        count_trail_zeros(ds) == t,
    decreases t,
{
    if t > 0 {
        let head = ds.subrange(0, ds.len() - 1);
        assert forall|x: int| head.len() - (t - 1) <= x < head.len() implies #[trigger] head[x]
            == 0 by {
            assert(ds[x] == 0);
        }
        lemma_count_trail(head, t - 1);
    }
}

impl Parser {
    /// Consumes one number literal: scans it by the grammar, then converts
    /// it to the canonical decimal it denotes, rejecting magnitudes past
    /// the binary64 overflow threshold.
    #[verifier::spinoff_prover]
    #[verifier::rlimit(100)]
    pub fn parse_number(&mut self) -> (r: Result<Num, ParseError>)
        requires
            old(self).wf(),
        ensures
            final(self).wf(),
            final(self).src() == old(self).src(),
            match sp_number(old(self).src(), old(self).at()) {
                Ok((nv, j)) => r is Ok && nv == (SpecVal::NumV {
                    neg: r->Ok_0.neg_spec(),
                    digits: r->Ok_0.digits_spec(),
                    exp: r->Ok_0.exp_spec(),
                }) && final(self).at() == j && r->Ok_0.wf(),
                Err(e) => r is Err && r->Err_0 == e,
            },
    {
        let ghost s = old(self).src();
        let ghost i0 = self.at();
        let num_error = self.state.error(ParseErrorKind::TooBigNumber);
        let mut neg = false;
        match self.state.peek_char() {
            Ok(c) => {
                if c == '-' {
                    neg = true;
                    self.state.skip_char(c);
                }
            },
            Err(_) => {},
        }
        let ghost i1 = self.at();
        proof {
            assert(neg == (0 <= i0 < s.len() && s[i0] == '-'));
        }
        let c = match self.state.peek_char() {
            Err(e) => {
                return Err(e);
            },
            Ok(c) => c,
        };
        let mut dall: Vec<u8> = Vec::new();
        if c == '0' {
            self.state.skip_char(c);
            dall.push(0);
            proof {
                assert(dall@ =~= seq![0u8]);
            }
        } else if c >= '1' && c <= '9' {
            self.digit_run(&mut dall);
            proof {
                lemma_sp_digit_run_digits(s, i1);
                assert(Seq::<u8>::empty() + sp_digit_run(s, i1).0 =~= sp_digit_run(s, i1).0);
            }
        } else {
            return Err(self.state.error(ParseErrorKind::UnexpectedChar));
        }
        let ghost i2 = self.at();
        let ghost ints = dall@;
        proof {
            assert(sp_int_digits(s, i1) == Ok::<(Seq<u8>, int), ParseError>((ints, i2)));
            assert(forall|x: int| 0 <= x < ints.len() ==> #[trigger] ints[x] <= 9);
        }
        let mut fraclen: usize = 0;
        let mut is_dot = false;
        match self.state.peek_char() {
            Ok(c2) => {
                if c2 == '.' {
                    is_dot = true;
                }
            },
            Err(_) => {},
        }
        if is_dot {
            self.state.skip_char('.');
            let c3 = match self.state.peek_char() {
                Err(e) => {
                    return Err(e);
                },
                Ok(c3) => c3,
            };
            if !(c3 >= '0' && c3 <= '9') {
                return Err(self.state.error(ParseErrorKind::UnexpectedChar));
            }
            let before = dall.len();
            self.digit_run(&mut dall);
            fraclen = dall.len() - before;
            proof {
                lemma_sp_digit_run_digits(s, i2 + 1);
            }
        } else {
            proof {
                assert(dall@ + Seq::<u8>::empty() =~= dall@);
            }
        }
        let ghost i3 = self.at();
        let ghost fracs = sp_frac(s, i2)->Ok_0.0;
        proof {
            assert(sp_frac(s, i2) is Ok);
            assert(sp_frac(s, i2)->Ok_0.1 == i3);
            assert(dall@ == ints + fracs);
            assert(fraclen as int == fracs.len());
        }
        let mut eneg = false;
        let mut e_abs: i128 = 0;
        let mut is_e = false;
        let mut e_char = ' ';
        match self.state.peek_char() {
            Ok(c4) => {
                if c4 == 'e' || c4 == 'E' {
                    is_e = true;
                    e_char = c4;
                }
            },
            Err(_) => {},
        }
        if is_e {
            self.state.skip_char(e_char);
            let mut has_sign = false;
            let mut sign_char = ' ';
            match self.state.peek_char() {
                Ok(c5) => {
                    if c5 == '+' || c5 == '-' {
                        has_sign = true;
                        sign_char = c5;
                        if c5 == '-' {
                            eneg = true;
                        }
                    }
                },
                Err(_) => {},
            }
            if has_sign {
                self.state.skip_char(sign_char);
            }
            let c6 = match self.state.peek_char() {
                Err(e) => {
                    return Err(e);
                },
                Ok(c6) => c6,
            };
            if !(c6 >= '0' && c6 <= '9') {
                return Err(self.state.error(ParseErrorKind::UnexpectedChar));
            }
            let ghost jrun = self.at();
            let mut edigs: Vec<u8> = Vec::new();
            self.digit_run(&mut edigs);
            proof {
                lemma_sp_digit_run_digits(s, jrun);
                assert(Seq::<u8>::empty() + sp_digit_run(s, jrun).0 =~= sp_digit_run(s, jrun).0);
            }
            e_abs = dec_sat(&edigs);
        }
        let ghost i4 = self.at();
        let ghost edigs_g = sp_exp_part(s, i3)->Ok_0.1;
        proof {
            assert(dec_val_sat(Seq::<u8>::empty()) == 0);
            assert(sp_exp_part(s, i3) is Ok);
            assert(sp_exp_part(s, i3)->Ok_0.0 == eneg);
            assert(dec_val_sat(edigs_g) == e_abs as int);
            assert(sp_exp_part(s, i3)->Ok_0.2 == i4);
            assert(forall|x: int| 0 <= x < dall@.len() ==> #[trigger] dall@[x] <= 9) by {
                assert(forall|x: int|
                    0 <= x < dall@.len() ==> dall@[x] == (
                        if x < ints.len() {
                            ints[x]
                        } else {
                            fracs[x - ints.len()]
                        }
                    ));
            }
        }
        let r = finish_number(neg, dall, fraclen, eneg, e_abs, Ghost(edigs_g), num_error);
        proof {
            if let Ok((nv, j)) = sp_number(s, i0) {
                assert(j == i4);
            }
        }
        r
    }
}

/// Converts a scanned number lexeme (digits of the integer part and
/// fraction together, fraction length, exponent sign and saturated
/// magnitude) to the canonical decimal it denotes, or reports `big_err`
/// when the magnitude is past the binary64 overflow threshold.
#[verifier::rlimit(100)]
fn finish_number(
    neg: bool,
    dall: Vec<u8>,
    fraclen: usize,
    eneg: bool,
    e_abs: i128,
    edigs: Ghost<Seq<u8>>,
    big_err: ParseError,
) -> (r: Result<Num, ParseError>)
    requires
        forall|x: int| 0 <= x < dall@.len() ==> #[trigger] dall@[x] <= 9,
        dall@.len() > 0,
        fraclen <= dall@.len(),
        e_abs as int == dec_val_sat(edigs@),
        0 <= e_abs <= EXP_SAT,
    ensures
        ({
            let e = canon_exp(dall@, fraclen as int, eneg, edigs@);
            &&& (all_zero(dall@) ==> r is Ok && !r->Ok_0.neg_spec() && r->Ok_0.digits_spec()
                == Seq::<u8>::empty() && r->Ok_0.exp_spec() == 0 && r->Ok_0.wf())
            &&& (!all_zero(dall@) && num_too_big(canon_digits(dall@), e) ==> r == Err::<
                Num,
                ParseError,
            >(big_err))
            &&& (!all_zero(dall@) && !num_too_big(canon_digits(dall@), e) ==> r is Ok
                && r->Ok_0.neg_spec() == neg && r->Ok_0.digits_spec() == canon_digits(dall@)
                && r->Ok_0.exp_spec() == (
                if e < EXP_MIN as int {
                    EXP_MIN as int
                } else {
                    e
                }) && r->Ok_0.wf())
        }),
{
    let mut lead: usize = 0;
    while lead < dall.len() && dall[lead] == 0
        invariant
            lead <= dall@.len(),
            forall|x: int| 0 <= x < lead ==> #[trigger] dall@[x] == 0,
        decreases dall@.len() - lead,
    {
        lead = lead + 1;
    }
    if lead == dall.len() {
        proof {
            assert(all_zero(dall@));
        }
        let z = Num::zero();
        return Ok(z);
    }
    proof {
        lemma_count_lead(dall@, lead as int);
        assert(dall@[lead as int] != 0);
        assert(!all_zero(dall@));
    }
    let mut trail: usize = 0;
    while dall[dall.len() - 1 - trail] == 0
        invariant
            lead < dall@.len(),
            dall@[lead as int] != 0,
            trail <= dall@.len() - 1 - lead,
            forall|x: int| dall@.len() - trail <= x < dall@.len() ==> #[trigger] dall@[x] == 0,
        decreases dall@.len() - trail,
    {
        trail = trail + 1;
    }
    proof {
        lemma_count_trail(dall@, trail as int);
    }
    let hi = dall.len() - trail;
    let mut digs: Vec<u8> = Vec::new();
    let mut idx = lead;
    proof {
        assert(dall@.subrange(lead as int, lead as int) =~= Seq::<u8>::empty());
    }
    while idx < hi
        invariant
            lead <= idx <= hi <= dall@.len(),
            digs@ == dall@.subrange(lead as int, idx as int),
        decreases hi - idx,
    {
        digs.push(dall[idx]);
        proof {
            assert(dall@.subrange(lead as int, idx as int + 1) =~= dall@.subrange(
                lead as int,
                idx as int,
            ) + seq![dall@[idx as int]]);
        }
        idx = idx + 1;
    }
    proof {
        assert(digs@ =~= canon_digits(dall@));
    }
    let e_lit: i128 = if eneg {
        -e_abs
    } else {
        e_abs
    };
    let e: i128 = ((dall.len() - lead - 1) as i128) + e_lit - (fraclen as i128);
    proof {
        assert(e == canon_exp(dall@, fraclen as int, eneg, edigs@));
    }
    if e > 308 {
        return Err(big_err);
    }
    if e == 308 && ge_threshold(&digs) {
        return Err(big_err);
    }
    proof {
        assert(!num_too_big(digs@, e as int));
    }
    let ec: i64 = if e < EXP_MIN as i128 {
        EXP_MIN
    } else {
        e as i64
    };
    proof {
        assert(digs@.len() > 0);
        assert(digs@[0] == dall@[lead as int]);
        assert(digs@[digs@.len() - 1] == dall@[dall@.len() - trail - 1]);
        assert(dall@[dall@.len() - trail - 1] != 0);
        assert(forall|x: int| 0 <= x < digs@.len() ==> #[trigger] digs@[x] <= 9);
        assert(!num_too_big(digs@, ec as int));
        assert(num_wf(neg, digs@, ec as int));
    }
    let n = Num::from_canonical(neg, digs, ec);
    Ok(n)
}

/// Comparison is decided by the first position where the sequences differ,
/// once an equal prefix is dropped.
proof fn lemma_lex_skip(a: Seq<char>, b: Seq<char>, k: int)
    requires
        0 <= k <= a.len(),
        k <= b.len(),
        forall|x: int| 0 <= x < k ==> a[x] == b[x],
    ensures
        lex_lt(a, b) == lex_lt(a.subrange(k, a.len() as int), b.subrange(k, b.len() as int)),
    decreases k,
{
    if k == 0 {
        assert(a.subrange(0, a.len() as int) =~= a);
        assert(b.subrange(0, b.len() as int) =~= b);
    } else {
        let at = a.subrange(1, a.len() as int);
        let bt = b.subrange(1, b.len() as int);
        assert(a[0] == b[0]);
        assert forall|x: int| 0 <= x < k - 1 implies at[x] == bt[x] by {
            assert(a[x + 1] == b[x + 1]);
        }
        lemma_lex_skip(at, bt, k - 1);
        assert(at.subrange(k - 1, at.len() as int) =~= a.subrange(k, a.len() as int));
        assert(bt.subrange(k - 1, bt.len() as int) =~= b.subrange(k, b.len() as int));
    }
}

/// Lexicographic order is total: two sequences are ordered or equal.
proof fn lemma_lex_trichotomy(a: Seq<char>, b: Seq<char>)
    ensures
        lex_lt(a, b) || lex_lt(b, a) || a == b,
    decreases a.len(),
{
    if a.len() > 0 && b.len() > 0 && a[0] == b[0] {
        let at = a.subrange(1, a.len() as int);
        let bt = b.subrange(1, b.len() as int);
        lemma_lex_trichotomy(at, bt);
        if !lex_lt(a, b) && !lex_lt(b, a) {
            assert(at == bt);
            assert forall|x: int| 0 <= x < a.len() implies a[x] == b[x] by {
                if x > 0 {
                    assert(a[x] == at[x - 1]);
                    assert(b[x] == bt[x - 1]);
                }
            }
            assert(a =~= b);
        }
    }
}

/// Strict lexicographic order is irreflexive.
proof fn lemma_lex_irrefl(a: Seq<char>)
    ensures
        !lex_lt(a, a),
    decreases a.len(),
{
    if a.len() > 0 {
        lemma_lex_irrefl(a.subrange(1, a.len() as int));
    }
}

/// Three-way lexicographic comparison of character vectors.
fn lex_cmp(a: &Vec<char>, b: &Vec<char>) -> (r: i8)
    ensures
        (r == -1) <==> lex_lt(a@, b@),
        (r == 0) <==> a@ == b@,
        r == -1 || r == 0 || r == 1,
{
    let mut k: usize = 0;
    loop
        invariant
            k <= a@.len(),
            k <= b@.len(),
            forall|x: int| 0 <= x < k ==> a@[x] == b@[x],
        decreases a@.len() - k,
    {
        if k >= a.len() {
            if k >= b.len() {
                proof {
                    assert(a@ =~= b@);
                    lemma_lex_skip(a@, b@, k as int);
                }
                return 0;
            }
            proof {
                lemma_lex_skip(a@, b@, k as int);
                assert(lex_lt(a@.subrange(k as int, a@.len() as int), b@.subrange(
                    k as int,
                    b@.len() as int,
                )));
                assert(a@.len() != b@.len());
            }
            return -1;
        }
        if k >= b.len() {
            proof {
                lemma_lex_skip(a@, b@, k as int);
                assert(b@.subrange(k as int, b@.len() as int).len() == 0);
                assert(a@.len() != b@.len());
            }
            return 1;
        }
        let ca = a[k];
        let cb = b[k];
        if ca == cb {
            k = k + 1;
        } else if (ca as u32) < (cb as u32) {
            proof {
                lemma_char_u32(ca);
                lemma_char_u32(cb);
                lemma_lex_skip(a@, b@, k as int);
                assert(a@.subrange(k as int, a@.len() as int)[0] == ca);
                assert(b@.subrange(k as int, b@.len() as int)[0] == cb);
                assert(a@[k as int] != b@[k as int]);
            }
            return -1;
        } else {
            proof {
                lemma_char_u32(ca);
                lemma_char_u32(cb);
                lemma_lex_skip(a@, b@, k as int);
                assert(a@.subrange(k as int, a@.len() as int)[0] == ca);
                assert(b@.subrange(k as int, b@.len() as int)[0] == cb);
                assert(a@[k as int] != b@[k as int]);
            }
            return 1;
        }
    }
}

/// Where the scan in `obj_insert_exec` stops, the spec insertion places or
/// replaces the member.
proof fn lemma_obj_insert_at(
    ms: Seq<(Seq<char>, SpecVal)>,
    key: Seq<char>,
    v: SpecVal,
    idx: int,
)
    requires
        0 <= idx <= ms.len(),
        forall|x: int| 0 <= x < idx ==> lex_lt(#[trigger] ms[x].0, key),
        idx < ms.len() ==> !lex_lt(ms[idx].0, key),
    ensures
        idx < ms.len() && key == ms[idx].0 ==> obj_insert(ms, key, v) == ms.subrange(0, idx)
            + seq![(key, v)] + ms.subrange(idx + 1, ms.len() as int),
        !(idx < ms.len() && key == ms[idx].0) ==> obj_insert(ms, key, v) == ms.subrange(0, idx)
            + seq![(key, v)] + ms.subrange(idx, ms.len() as int),
    decreases idx,
{
    if idx == 0 {
        if ms.len() == 0 {
            assert(obj_insert(ms, key, v) =~= ms.subrange(0, 0) + seq![(key, v)] + ms.subrange(
                0,
                ms.len() as int,
            ));
        } else if key == ms[0].0 {
            assert(obj_insert(ms, key, v) =~= ms.subrange(0, 0) + seq![(key, v)] + ms.subrange(
                1,
                ms.len() as int,
            ));
        } else {
            lemma_lex_trichotomy(key, ms[0].0);
            assert(lex_lt(key, ms[0].0));
            assert(obj_insert(ms, key, v) =~= ms.subrange(0, 0) + seq![(key, v)] + ms.subrange(
                0,
                ms.len() as int,
            ));
        }
    } else {
        let tail = ms.subrange(1, ms.len() as int);
        assert(lex_lt(ms[0].0, key));
        assert(key != ms[0].0) by {
            if key == ms[0].0 {
                lemma_lex_irrefl(key);
            }
        }
        assert(!lex_lt(key, ms[0].0)) by {
            lemma_lex_asymmetric(key, ms[0].0);
        }
        assert forall|x: int| 0 <= x < idx - 1 implies lex_lt(#[trigger] tail[x].0, key) by {
            assert(ms[x + 1].0 == tail[x].0);
        }
        lemma_obj_insert_at(tail, key, v, idx - 1);
        if idx < ms.len() && key == ms[idx].0 {
            assert(tail.subrange(0, idx - 1) =~= ms.subrange(1, idx));
            assert(tail.subrange(idx, tail.len() as int) =~= ms.subrange(
                idx + 1,
                ms.len() as int,
            ));
            assert(obj_insert(ms, key, v) =~= ms.subrange(0, idx) + seq![(key, v)] + ms.subrange(
                idx + 1,
                ms.len() as int,
            ));
        } else {
            assert(tail.subrange(0, idx - 1) =~= ms.subrange(1, idx));
            assert(tail.subrange(idx - 1, tail.len() as int) =~= ms.subrange(
                idx,
                ms.len() as int,
            ));
            assert(obj_insert(ms, key, v) =~= ms.subrange(0, idx) + seq![(key, v)] + ms.subrange(
                idx,
                ms.len() as int,
            ));
        }
    }
}

/// Strict lexicographic order is asymmetric.
proof fn lemma_lex_asymmetric(a: Seq<char>, b: Seq<char>)
    requires
        lex_lt(b, a),
    ensures
        !lex_lt(a, b),
    decreases a.len(),
{
    if a.len() > 0 && b.len() > 0 && a[0] == b[0] {
        lemma_lex_asymmetric(a.subrange(1, a.len() as int), b.subrange(1, b.len() as int));
    }
}

/// Sorted last-wins insertion into the member vector, mirroring
/// `obj_insert`.
fn obj_insert_exec(buf: &mut Vec<(Vec<char>, Value)>, key: Vec<char>, v: Value)
    ensures
        obj_view(*final(buf)) == obj_insert(obj_view(*old(buf)), key@, v@),
{
    let ghost ms = obj_view(*buf);
    let mut idx: usize = 0;
    loop
        invariant
            idx <= buf@.len(),
            ms == obj_view(*buf),
            forall|x: int| 0 <= x < idx ==> lex_lt(#[trigger] ms[x].0, key@),
        ensures
            idx <= buf@.len(),
            ms == obj_view(*buf),
            forall|x: int| 0 <= x < idx ==> lex_lt(#[trigger] ms[x].0, key@),
            idx < buf@.len() ==> !lex_lt(ms[idx as int].0, key@),
        decreases buf@.len() - idx,
    {
        if idx >= buf.len() {
            break;
        }
        let c = lex_cmp(&buf[idx].0, &key);
        proof {
            assert(ms[idx as int].0 == buf@[idx as int].0@);
        }
        if c == -1 {
            idx = idx + 1;
        } else {
            break;
        }
    }
    proof {
        lemma_obj_insert_at(ms, key@, v@, idx as int);
    }
    if idx < buf.len() {
        let c = lex_cmp(&buf[idx].0, &key);
        proof {
            assert(ms[idx as int].0 == buf@[idx as int].0@);
        }
        if c == 0 {
            let _ = buf.remove(idx);
            buf.insert(idx, (key, v));
            proof {
                assert(obj_view(*buf) =~= ms.subrange(0, idx as int) + seq![(key@, v@)]
                    + ms.subrange(idx as int + 1, ms.len() as int));
            }
            return;
        }
    }
    buf.insert(idx, (key, v));
    proof {
        assert(obj_view(*buf) =~= ms.subrange(0, idx as int) + seq![(key@, v@)] + ms.subrange(
            idx as int,
            ms.len() as int,
        ));
    }
}

impl Parser {
    /// Consumes one element: whitespace, a value, whitespace.
    pub fn parse_element(&mut self) -> (r: Result<Value, ParseError>)
        requires
            old(self).wf(),
        ensures
            final(self).wf(),
            final(self).src() == old(self).src(),
            match sp_element(old(self).src(), old(self).at()) {
                Ok((g, j)) => r is Ok && r->Ok_0@ == g && final(self).at() == j && swf(g),
                Err(e) => r is Err && r->Err_0 == e,
            },
        decreases self.src().len() - self.at(), 2int,
    {
        let ghost s = old(self).src();
        let ghost i0 = self.at();
        self.skip_ws();
        proof {
            lemma_sp_ws_bounds(s, i0);
        }
        let v = match self.parse_value() {
            Err(e) => {
                return Err(e);
            },
            Ok(v) => v,
        };
        self.skip_ws();
        Ok(v)
    }

    /// Consumes one value, dispatched on its first character.
    #[verifier::spinoff_prover]
    #[verifier::rlimit(100)]
    pub fn parse_value(&mut self) -> (r: Result<Value, ParseError>)
        requires
            old(self).wf(),
        ensures
            final(self).wf(),
            final(self).src() == old(self).src(),
            match sp_value(old(self).src(), old(self).at()) {
                Ok((g, j)) => r is Ok && r->Ok_0@ == g && final(self).at() == j && swf(g),
                Err(e) => r is Err && r->Err_0 == e,
            },
        decreases self.src().len() - self.at(), 1int,
    {
        let c = match self.state.peek_char() {
            Err(e) => {
                return Err(e);
            },
            Ok(c) => c,
        };
        if c == 'n' {
            proof {
                reveal_strlit("null");
                assert("null"@ =~= seq!['n', 'u', 'l', 'l']);
            }
            match self.expect_str("null") {
                Err(e) => Err(e),
                Ok(()) => Ok(Value::Null),
            }
        } else if c == 't' {
            proof {
                reveal_strlit("true");
                assert("true"@ =~= seq!['t', 'r', 'u', 'e']);
            }
            match self.expect_str("true") {
                Err(e) => Err(e),
                Ok(()) => Ok(Value::Boolean(true)),
            }
        } else if c == 'f' {
            proof {
                reveal_strlit("false");
                assert("false"@ =~= seq!['f', 'a', 'l', 's', 'e']);
            }
            match self.expect_str("false") {
                Err(e) => Err(e),
                Ok(()) => Ok(Value::Boolean(false)),
            }
        } else if c == '-' || (c >= '0' && c <= '9') {
            match self.parse_number() {
                Err(e) => Err(e),
                Ok(n) => Ok(Value::Number(n)),
            }
        } else if c == '"' {
            match self.parse_string() {
                Err(e) => Err(e),
                Ok(t) => Ok(Value::String(t)),
            }
        } else if c == '[' {
            match self.parse_array() {
                Err(e) => Err(e),
                Ok(items) => Ok(Value::Array(items)),
            }
        } else if c == '{' {
            match self.parse_object() {
                Err(e) => Err(e),
                Ok(members) => Ok(Value::Object(members)),
            }
        } else {
            Err(self.state.error(ParseErrorKind::UnexpectedChar))
        }
    }

    /// Consumes one array after dispatch saw `[`.
    #[verifier::spinoff_prover]
    #[verifier::rlimit(100)]
    pub fn parse_array(&mut self) -> (r: Result<Vec<Value>, ParseError>)
        requires
            old(self).wf(),
        ensures
            final(self).wf(),
            final(self).src() == old(self).src(),
            match sp_array(old(self).src(), old(self).at()) {
                Ok((g, j)) => r is Ok && g == SpecVal::ArrV(arr_view(r->Ok_0)) && final(self).at()
                    == j && swf(g),
                Err(e) => r is Err && r->Err_0 == e,
            },
        decreases self.src().len() - self.at(), 0int,
    {
        let ghost s = old(self).src();
        let ghost i0 = self.at();
        match self.expect_char('[') {
            Err(e) => {
                return Err(e);
            },
            Ok(()) => {},
        }
        self.skip_ws();
        proof {
            lemma_sp_ws_bounds(s, i0 + 1);
        }
        let ghost j0 = self.at();
        let ghost tot = sp_arr_items(s, j0, true);
        let mut buf: Vec<Value> = Vec::new();
        proof {
            assert(arr_view(buf) =~= Seq::<SpecVal>::empty());
            if let Ok((t0, k0)) = sp_arr_items(s, j0, true) {
                assert(Seq::<SpecVal>::empty() + t0 =~= t0);
            }
        }
        loop
            invariant
                self.wf(),
                s == old(self).src(),
                self.src() == s,
                i0 == old(self).at(),
                tot == sp_arr_items(s, j0, true),
                i0 < j0 <= self.at() <= s.len(),
                0 <= i0 < s.len() && s[i0] == '[',
                j0 == sp_ws(s, i0 + 1),
                swf_list(arr_view(buf), arr_view(buf).len() as int),
                ({
                    let cur = sp_arr_items(s, self.at(), buf@.len() == 0);
                    &&& (cur is Ok ==> tot is Ok && tot->Ok_0.0 == arr_view(buf) + cur->Ok_0.0
                        && tot->Ok_0.1 == cur->Ok_0.1)
                    &&& (cur is Err ==> tot == cur)
                }),
            decreases s.len() - self.at(),
        {
            let c = match self.state.peek_char() {
                Err(e) => {
                    return Err(e);
                },
                Ok(c) => c,
            };
            if c == ']' {
                self.state.skip_char(c);
                proof {
                    assert(arr_view(buf) + Seq::<SpecVal>::empty() =~= arr_view(buf));
                }
                return Ok(buf);
            }
            if buf.len() > 0 {
                match self.expect_char(',') {
                    Err(e) => {
                        return Err(e);
                    },
                    Ok(()) => {},
                }
            }
            let ghost j = self.at();
            let ghost oldview = arr_view(buf);
            let v = match self.parse_element() {
                Err(e) => {
                    return Err(e);
                },
                Ok(v) => v,
            };
            buf.push(v);
            proof {
                lemma_sp_value_progress(s, j);
                assert(arr_view(buf) =~= oldview + seq![v@]);
                assert(arr_view(buf) =~= oldview.push(v@));
                lemma_swf_list_snoc(oldview, v@);
                if let Ok((t2, k2)) = sp_arr_items(s, self.at(), false) {
                    assert((oldview + seq![v@]) + t2 =~= oldview + (seq![v@] + t2));
                }
            }
        }
    }

    /// Consumes one object member: key, colon, element.
    pub fn parse_member(&mut self) -> (r: Result<(Vec<char>, Value), ParseError>)
        requires
            old(self).wf(),
        ensures
            final(self).wf(),
            final(self).src() == old(self).src(),
            match sp_member(old(self).src(), old(self).at()) {
                Ok(((key, g), j)) => r is Ok && r->Ok_0.0@ == key && r->Ok_0.1@ == g
                    && final(self).at() == j && swf(g),
                Err(e) => r is Err && r->Err_0 == e,
            },
        decreases self.src().len() - self.at(), 3int,
    {
        let ghost s = old(self).src();
        let ghost i0 = self.at();
        self.skip_ws();
        proof {
            lemma_sp_ws_bounds(s, i0);
        }
        let ghost jk = self.at();
        let key = match self.parse_string() {
            Err(e) => {
                return Err(e);
            },
            Ok(k) => k,
        };
        let ghost kk = self.at();
        proof {
            lemma_sp_string_progress(s, jk);
            lemma_sp_ws_bounds(s, kk);
            assert(sp_string(s, jk) is Ok);
            assert(jk + 2 <= kk <= s.len());
        }
        self.skip_ws();
        let ghost m = self.at();
        proof {
            assert(m == sp_ws(s, kk));
            assert(kk <= m <= s.len());
        }
        match self.expect_char(':') {
            Err(e) => {
                return Err(e);
            },
            Ok(()) => {},
        }
        proof {
            assert(0 <= m < s.len() && s[m] == ':');
            assert(i0 < m + 1 <= s.len());
        }
        let v = match self.parse_element() {
            Err(e) => {
                return Err(e);
            },
            Ok(v) => v,
        };
        Ok((key, v))
    }

    /// Consumes one object after dispatch saw `{`; members are inserted in
    /// key order, a repeated key keeping its last value.
    #[verifier::spinoff_prover]
    #[verifier::rlimit(100)]
    pub fn parse_object(&mut self) -> (r: Result<Vec<(Vec<char>, Value)>, ParseError>)
        requires
            old(self).wf(),
        ensures
            final(self).wf(),
            final(self).src() == old(self).src(),
            match sp_object(old(self).src(), old(self).at()) {
                Ok((g, j)) => r is Ok && g == SpecVal::ObjV(obj_view(r->Ok_0)) && final(self).at()
                    == j && swf(g),
                Err(e) => r is Err && r->Err_0 == e,
            },
        decreases self.src().len() - self.at(), 0int,
    {
        let ghost s = old(self).src();
        let ghost i0 = self.at();
        match self.expect_char('{') {
            Err(e) => {
                return Err(e);
            },
            Ok(()) => {},
        }
        self.skip_ws();
        proof {
            lemma_sp_ws_bounds(s, i0 + 1);
        }
        let ghost j0 = self.at();
        let ghost tot = sp_obj_items(s, j0, true, Seq::empty());
        let mut buf: Vec<(Vec<char>, Value)> = Vec::new();
        proof {
            assert(obj_view(buf) =~= Seq::<(Seq<char>, SpecVal)>::empty());
        }
        loop
            invariant
                self.wf(),
                s == old(self).src(),
                self.src() == s,
                i0 == old(self).at(),
                tot == sp_obj_items(s, j0, true, Seq::empty()),
                i0 < j0 <= self.at() <= s.len(),
                0 <= i0 < s.len() && s[i0] == '{',
                j0 == sp_ws(s, i0 + 1),
                tot == sp_obj_items(s, self.at(), buf@.len() == 0, obj_view(buf)),
                obj_sorted(obj_view(buf)),
                swf_members(obj_view(buf), obj_view(buf).len() as int),
            decreases s.len() - self.at(),
        {
            let c = match self.state.peek_char() {
                Err(e) => {
                    return Err(e);
                },
                Ok(c) => c,
            };
            if c == '}' {
                self.state.skip_char(c);
                return Ok(buf);
            }
            if buf.len() > 0 {
                match self.expect_char(',') {
                    Err(e) => {
                        return Err(e);
                    },
                    Ok(()) => {},
                }
            }
            let ghost j = self.at();
            let ghost oldview = obj_view(buf);
            let kv = match self.parse_member() {
                Err(e) => {
                    return Err(e);
                },
                Ok(kv) => kv,
            };
            let (key, v) = kv;
            let ghost keyv = key@;
            let ghost vv = v@;
            obj_insert_exec(&mut buf, key, v);
            proof {
                lemma_sp_value_progress(s, j);
                assert(obj_view(buf) == obj_insert(oldview, keyv, vv));
                lemma_obj_insert_len(oldview, keyv, vv);
                lemma_obj_insert_wf(oldview, keyv, vv);
            }
        }
    }
}

/// Insertion never empties the member list.
proof fn lemma_obj_insert_len(ms: Seq<(Seq<char>, SpecVal)>, key: Seq<char>, v: SpecVal)
    ensures
        obj_insert(ms, key, v).len() > 0,
    decreases ms.len(),
{
    if ms.len() > 0 && !lex_lt(key, ms[0].0) && key != ms[0].0 {
        lemma_obj_insert_len(ms.subrange(1, ms.len() as int), key, v);
    }
}

/// Parses JSON text into a value, demanding that nothing but whitespace
/// follows the top-level value.
pub fn parse(text: &str) -> (r: Result<Value, ParseError>)
    requires
        text@.len() < usize::MAX,
    ensures
        match sp_parse(text@) {
            Ok(g) => r is Ok && r->Ok_0@ == g && swf(g),
            Err(e) => r is Err && r->Err_0 == e,
        },
{
    let mut parser = Parser::new(text);
    let v = match parser.parse_element() {
        Err(e) => {
            return Err(e);
        },
        Ok(v) => v,
    };
    match parser.state.peek_char() {
        Ok(_) => Err(parser.state.error(ParseErrorKind::UnexpectedChar)),
        Err(_) => Ok(v),
    }
}

/// The fixed message for each error kind.
pub open spec fn kind_text(k: ParseErrorKind) -> Seq<char> {
    match k {
        ParseErrorKind::PrematureEof => "premature end of data"@,
        ParseErrorKind::UnexpectedChar => "unexpected character"@,
        ParseErrorKind::TooBigNumber => "too big number"@,
        ParseErrorKind::InvalidUtf16SurrogatePair => "invalid UTF-16 surrogate pair"@,
    }
}

/// The full rendering of an error: kind message, line and column.
pub open spec fn message_text(e: ParseError) -> Seq<char> {
    kind_text(e.kind) + " at line "@ + dec_text(e.position.line as int) + " column "@ + dec_text(
        e.position.column as int,
    )
}

/// Appends every character of `src` to `dst`.
fn push_all(dst: &mut Vec<char>, src: &Vec<char>)
    ensures
        final(dst)@ == old(dst)@ + src@,
{
    let mut k: usize = 0;
    while k < src.len()
        invariant
            k <= src@.len(),
            dst@ == old(dst)@ + src@.subrange(0, k as int),
        decreases src@.len() - k,
    {
        dst.push(src[k]);
        proof {
            assert(src@.subrange(0, k as int + 1) =~= src@.subrange(0, k as int) + seq![
                src@[k as int],
            ]);
        }
        k = k + 1;
    }
    proof {
        assert(src@.subrange(0, src@.len() as int) =~= src@);
    }
}

impl ParseError {
    /// The textual form of this error:
    /// `"<kind message> at line <L> column <C>"`.
    pub fn message(&self) -> (r: String)
        ensures
            r@ == message_text(*self),
    {
        let kind_part = match self.kind {
            ParseErrorKind::PrematureEof => "premature end of data",
            ParseErrorKind::UnexpectedChar => "unexpected character",
            ParseErrorKind::TooBigNumber => "too big number",
            ParseErrorKind::InvalidUtf16SurrogatePair => "invalid UTF-16 surrogate pair",
        };
        let mut out = str_to_chars(kind_part);
        let mid = str_to_chars(" at line ");
        push_all(&mut out, &mid);
        write_dec(&mut out, self.position.line as u64);
        let mid2 = str_to_chars(" column ");
        push_all(&mut out, &mid2);
        write_dec(&mut out, self.position.column as u64);
        proof {
            assert(out@ =~= message_text(*self));
        }
        chars_to_string(&out)
    }
}

} // verus!
