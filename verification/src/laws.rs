//! General properties of the library, stated once over the specification
//! functions that the executable contracts are pinned to.

use vstd::prelude::*;
use crate::num::{
    all_zero, canon_digits, canon_exp, dec_val_sat, num_too_big, num_wf, EXP_MIN, EXP_SAT,
};
use crate::parse::{
    digit_val, hex_val, is_digit, is_short_escape, is_ws, lemma_count_lead, lemma_count_trail,
    sp_digit_run, sp_element, sp_escape, sp_exp_part, sp_expect, sp_frac, sp_int_digits, sp_parse,
    sp_str_rest, sp_string, sp_value, sp_ws, ParseError, ParseErrorKind,
};
use crate::scan::{col_at, err_at, line_at};
use crate::stringify::{
    dec_text, digit_char, digits_range, esc_char, hex_char, int_text, ser_num, ser_str_range,
    ser_string, ser_top, zeros,
};
use crate::value::{obj_sorted, swf, SpecVal};

verus! {

/// Position counting starts at line 1, column 1.
pub proof fn lemma_position_start(s: Seq<char>)
    ensures
        line_at(s, 0) == 1,
        col_at(s, 0) == 1,
{
}

/// Consuming one more character increments the line exactly on a line
/// feed; the column resets to 1 after a line feed and otherwise counts one
/// more consumed scalar value.
pub proof fn lemma_position_counting(s: Seq<char>, n: int)
    requires
        1 <= n <= s.len(),
    ensures
        s[n - 1] == '\n' ==> line_at(s, n) == line_at(s, n - 1) + 1 && col_at(s, n) == 1,
        s[n - 1] != '\n' ==> line_at(s, n) == line_at(s, n - 1) && col_at(s, n) == col_at(
            s,
            n - 1,
        ) + 1,
{
}

/// Serialization is a function of the tree and the mode alone: equal trees
/// render to byte-identical text in either mode.
pub proof fn lemma_stringify_deterministic(a: SpecVal, b: SpecVal, pretty: bool)
    requires
        a == b,
    ensures
        ser_top(a, pretty) == ser_top(b, pretty),
{
}

/// In a well-formed object — and every object `parse` returns is
/// well-formed — the keys are strictly ascending in lexicographic order.
pub proof fn lemma_wf_object_keys_sorted(v: SpecVal)
    requires
        swf(v),
        v is ObjV,
    ensures
        obj_sorted(v->ObjV_0),
{
}

/// Anything but whitespace after a complete top-level value makes the
/// whole parse fail with `UnexpectedChar` exactly there.
pub proof fn lemma_trailing_text_rejected(s: Seq<char>)
    requires
        sp_element(s, 0) is Ok,
        sp_element(s, 0)->Ok_0.1 < s.len(),
    ensures
        sp_parse(s) == Err::<SpecVal, crate::parse::ParseError>(
            err_at(s, sp_element(s, 0)->Ok_0.1, ParseErrorKind::UnexpectedChar),
        ),
{
}

/// A hexadecimal digit character reads back as its value.
proof fn lemma_hex_char_val(d: int)
    requires
        0 <= d < 16,
    ensures
        hex_val(hex_char(d)) == d,
{
}

/// Parsing a serialized string body recovers exactly the remaining
/// characters and stops just past the closing quote.
#[verifier::rlimit(100)]
proof fn lemma_rt_str_body(t: Seq<char>, i: int, s: Seq<char>, k: int)
    requires
        0 <= k <= s.len(),
        0 <= i,
        i + ser_str_range(s, k, s.len() as int).len() + 1 <= t.len(),
        t.subrange(i, i + ser_str_range(s, k, s.len() as int).len() + 1) == ser_str_range(
            s,
            k,
            s.len() as int,
        ) + seq!['"'],
    ensures
        sp_str_rest(t, i) == Ok::<(Seq<char>, int), ParseError>(
            (s.subrange(k, s.len() as int), i + ser_str_range(s, k, s.len() as int).len() + 1),
        ),
    decreases s.len() - k,
{
    let n = s.len() as int;
    let rng = ser_str_range(s, k, n);
    let win = rng + seq!['"'];
    assert forall|x: int| 0 <= x < win.len() implies t[i + x] == #[trigger] win[x] by {
        assert(t.subrange(i, i + rng.len() + 1)[x] == win[x]);
    }
    if k == n {
        assert(rng =~= Seq::<char>::empty());
        assert(win[0] == '"');
        assert(t[i] == '"');
        assert(s.subrange(n, n) =~= Seq::<char>::empty());
    } else {
        let c = s[k];
        let e = esc_char(c);
        let rest = ser_str_range(s, k + 1, n);
        assert(rng == e + rest);
        assert forall|x: int| 0 <= x < e.len() implies t[i + x] == #[trigger] e[x] by {
            assert(win[x] == rng[x]);
            assert(rng[x] == e[x]);
        }
        assert forall|x: int|
            0 <= x < rest.len() + 1 implies t.subrange(i + e.len(), i + rng.len() + 1)[x] == (rest
                + seq!['"'])[x] by {
            assert(t[i + e.len() + x] == win[e.len() + x]);
        }
        assert(t.subrange(i + e.len(), i + rng.len() + 1) =~= rest + seq!['"']);
        lemma_rt_str_body(t, i + e.len(), s, k + 1);
        assert(seq![c] + s.subrange(k + 1, n) =~= s.subrange(k, n));
        if c == '"' || c == '\\' || c == '\u{8}' || c == '\u{c}' || c == '\n' || c == '\r'
            || c == '\t' {
            assert(t[i] == '\\');
            assert(is_short_escape(e[1]));
            assert(sp_escape(t, i) == Ok::<(char, int), ParseError>((c, i + 2)));
        } else if (c as int) < 32 {
            assert(0 <= c as int) by {
                vstd::utf8::char_is_scalar(c);
                crate::value::lemma_char_u32(c);
            }
            assert(t[i] == '\\');
            assert(t[i + 1] == 'u');
            assert(!is_short_escape('u'));
            assert(t[i + 2] == '0');
            assert(t[i + 3] == '0');
            assert(t[i + 4] == hex_char(c as int / 16));
            assert(t[i + 5] == hex_char(c as int % 16));
            assert(hex_val('0') == 0);
            lemma_hex_char_val(c as int / 16);
            lemma_hex_char_val(c as int % 16);
            let u = 4096 * hex_val(t[i + 2]) + 256 * hex_val(t[i + 3]) + 16 * hex_val(t[i + 4])
                + hex_val(t[i + 5]);
            assert(u == c as int);
            assert((u as char) == c);
            assert(sp_escape(t, i) == Ok::<(char, int), ParseError>((c, i + 6)));
        } else {
            assert(e == seq![c]);
            assert(e[0] == c);
            assert(t[i] == e[0]);
            assert((c as int) >= 32);
        }
    }
}

/// Round-trip for string values: parsing the serialized form of any
/// character sequence yields that sequence back.
pub proof fn lemma_string_roundtrip(s: Seq<char>)
    ensures
        sp_string(ser_string(s), 0) == Ok::<(Seq<char>, int), ParseError>(
            (s, ser_string(s).len() as int),
        ),
{
    let t = ser_string(s);
    assert(t[0] == '"');
    assert(t.subrange(1, t.len() as int) =~= ser_str_range(s, 0, s.len() as int) + seq!['"']);
    lemma_rt_str_body(t, 1, s, 0);
    assert(s.subrange(0, s.len() as int) =~= s);
}

/// The number case of the leaf round-trip: a whole document holding one
/// rendered number parses back to it.
#[verifier::spinoff_prover]
#[verifier::rlimit(100)]
proof fn lemma_rt_leaf_num(neg: bool, digits: Seq<u8>, exp: int, pretty: bool)
    requires
        num_wf(neg, digits, exp),
    ensures
        sp_parse(ser_top(SpecVal::NumV { neg, digits, exp }, pretty)) == Ok::<
            SpecVal,
            ParseError,
        >(SpecVal::NumV { neg, digits, exp }),
{
    let v = SpecVal::NumV { neg, digits, exp };
    let t = ser_top(v, pretty);
    assert(t == ser_num(neg, digits, exp));
    lemma_number_roundtrip(neg, digits, exp);
    if digits.len() == 0 {
        assert(t =~= seq!['0']);
        assert(t[0] == '0');
    } else if neg {
        assert(t[0] == '-');
    } else {
        let m = digits.len() as int;
        lemma_digit_char_facts(digits[0]);
        if -4 <= exp && exp <= 15 {
            if exp >= m - 1 {
                lemma_digits_range_index(digits, 0, m);
                assert(t[0] == digits_range(digits, 0, m)[0]);
            } else if exp >= 0 {
                lemma_digits_range_index(digits, 0, exp + 1);
                assert(t[0] == digits_range(digits, 0, exp + 1)[0]);
            } else {
                assert(t[0] == '0');
            }
        } else {
            assert(t[0] == digit_char(digits[0]));
        }
        assert(t[0] == '0' || t[0] == digit_char(digits[0]));
    }
    assert(t[0] == '-' || is_digit(t[0]));
    assert(!is_ws(t[0]));
    assert(sp_ws(t, 0) == 0);
    assert(t[0] != 'n' && t[0] != 't' && t[0] != 'f' && t[0] != '"');
    assert(sp_value(t, 0) == Ok::<(SpecVal, int), ParseError>((v, t.len() as int)));
    assert(sp_ws(t, t.len() as int) == t.len() as int);
    assert(sp_element(t, 0) == Ok::<(SpecVal, int), ParseError>((v, t.len() as int)));
}

/// Round-trip for every value without nested elements: parsing the
/// serialized form of null, a boolean, a number, a string, an empty array
/// or an empty object yields the value back, in either mode.
#[verifier::rlimit(100)]
pub proof fn lemma_roundtrip_leaf(v: SpecVal, pretty: bool)
    requires
        swf(v),
        v is NullV || v is BoolV || v is NumV || v is StrV || (v is ArrV && v->ArrV_0.len() == 0)
            || (v is ObjV && v->ObjV_0.len() == 0),
    ensures
        sp_parse(ser_top(v, pretty)) == Ok::<SpecVal, ParseError>(v),
{
    let t = ser_top(v, pretty);
    match v {
        SpecVal::NullV => {
            assert(t =~= seq!['n', 'u', 'l', 'l']);
            assert(sp_ws(t, 0) == 0);
            assert(t.subrange(1, 4) =~= seq!['u', 'l', 'l']);
            assert(t.subrange(2, 4) =~= seq!['l', 'l']);
            assert(t.subrange(3, 4) =~= seq!['l']);
            assert(t.subrange(4, 4) =~= Seq::<char>::empty());
            assert(seq!['n', 'u', 'l', 'l'].subrange(1, 4) =~= seq!['u', 'l', 'l']);
            assert(seq!['u', 'l', 'l'].subrange(1, 3) =~= seq!['l', 'l']);
            assert(seq!['l', 'l'].subrange(1, 2) =~= seq!['l']);
            assert(seq!['l'].subrange(1, 1) =~= Seq::<char>::empty());
            assert(sp_expect(t, 4, Seq::<char>::empty()) == Ok::<int, ParseError>(4));
            assert(sp_expect(t, 3, seq!['l']) == Ok::<int, ParseError>(4));
            assert(sp_expect(t, 2, seq!['l', 'l']) == Ok::<int, ParseError>(4));
            assert(sp_expect(t, 1, seq!['u', 'l', 'l']) == Ok::<int, ParseError>(4));
            assert(sp_expect(t, 0, seq!['n', 'u', 'l', 'l']) == Ok::<int, ParseError>(4));
            assert(sp_value(t, 0) == Ok::<(SpecVal, int), ParseError>((v, 4)));
            assert(sp_ws(t, 4) == 4);
        },
        SpecVal::BoolV(b) => {
            if b {
                assert(t =~= seq!['t', 'r', 'u', 'e']);
                assert(sp_ws(t, 0) == 0);
                assert(seq!['t', 'r', 'u', 'e'].subrange(1, 4) =~= seq!['r', 'u', 'e']);
                assert(seq!['r', 'u', 'e'].subrange(1, 3) =~= seq!['u', 'e']);
                assert(seq!['u', 'e'].subrange(1, 2) =~= seq!['e']);
                assert(seq!['e'].subrange(1, 1) =~= Seq::<char>::empty());
                assert(sp_expect(t, 4, Seq::<char>::empty()) == Ok::<int, ParseError>(4));
                assert(sp_expect(t, 3, seq!['e']) == Ok::<int, ParseError>(4));
                assert(sp_expect(t, 2, seq!['u', 'e']) == Ok::<int, ParseError>(4));
                assert(sp_expect(t, 1, seq!['r', 'u', 'e']) == Ok::<int, ParseError>(4));
                assert(sp_expect(t, 0, seq!['t', 'r', 'u', 'e']) == Ok::<int, ParseError>(4));
                assert(sp_value(t, 0) == Ok::<(SpecVal, int), ParseError>((v, 4)));
                assert(sp_ws(t, 4) == 4);
            } else {
                assert(t =~= seq!['f', 'a', 'l', 's', 'e']);
                assert(sp_ws(t, 0) == 0);
                assert(seq!['f', 'a', 'l', 's', 'e'].subrange(1, 5) =~= seq!['a', 'l', 's', 'e']);
                assert(seq!['a', 'l', 's', 'e'].subrange(1, 4) =~= seq!['l', 's', 'e']);
                assert(seq!['l', 's', 'e'].subrange(1, 3) =~= seq!['s', 'e']);
                assert(seq!['s', 'e'].subrange(1, 2) =~= seq!['e']);
                assert(seq!['e'].subrange(1, 1) =~= Seq::<char>::empty());
                assert(sp_expect(t, 5, Seq::<char>::empty()) == Ok::<int, ParseError>(5));
                assert(sp_expect(t, 4, seq!['e']) == Ok::<int, ParseError>(5));
                assert(sp_expect(t, 3, seq!['s', 'e']) == Ok::<int, ParseError>(5));
                assert(sp_expect(t, 2, seq!['l', 's', 'e']) == Ok::<int, ParseError>(5));
                assert(sp_expect(t, 1, seq!['a', 'l', 's', 'e']) == Ok::<int, ParseError>(5));
                assert(sp_expect(t, 0, seq!['f', 'a', 'l', 's', 'e']) == Ok::<int, ParseError>(5));
                assert(sp_value(t, 0) == Ok::<(SpecVal, int), ParseError>((v, 5)));
                assert(sp_ws(t, 5) == 5);
            }
        },
        SpecVal::StrV(sv) => {
            assert(t == ser_string(sv));
            assert(t[0] == '"');
            assert(!is_ws('"'));
            assert(sp_ws(t, 0) == 0);
            lemma_string_roundtrip(sv);
            assert(sp_value(t, 0) == Ok::<(SpecVal, int), ParseError>((v, t.len() as int)));
            assert(sp_ws(t, t.len() as int) == t.len() as int);
        },
        SpecVal::NumV { neg, digits, exp } => {
            lemma_rt_leaf_num(neg, digits, exp, pretty);
        },
        SpecVal::ArrV(items) => {
            assert(t =~= seq!['[', ']']);
            assert(sp_ws(t, 0) == 0);
            assert(sp_ws(t, 1) == 1);
            assert(items =~= Seq::<SpecVal>::empty());
            assert(sp_value(t, 0) == Ok::<(SpecVal, int), ParseError>((v, 2)));
            assert(sp_ws(t, 2) == 2);
        },
        SpecVal::ObjV(members) => {
            assert(t =~= seq!['{', '}']);
            assert(sp_ws(t, 0) == 0);
            assert(sp_ws(t, 1) == 1);
            assert(members =~= Seq::<(Seq<char>, SpecVal)>::empty());
            assert(sp_value(t, 0) == Ok::<(SpecVal, int), ParseError>((v, 2)));
            assert(sp_ws(t, 2) == 2);
        },
        _ => {},
    }
}

/// A digit character scans back as its value.
proof fn lemma_digit_char_facts(d: u8)
    requires
        d <= 9,
    ensures
        is_digit(digit_char(d)),
        digit_val(digit_char(d)) == d,
        d == 0 <==> digit_char(d) == '0',
{
}

/// A window of digit characters, followed by a non-digit or the end of the
/// input, scans as exactly its values.
proof fn lemma_run_window(t: Seq<char>, j: int, vals: Seq<u8>)
    requires
        0 <= j,
        j + vals.len() <= t.len(),
        forall|x: int| 0 <= x < vals.len() ==> #[trigger] vals[x] <= 9,
        forall|x: int| 0 <= x < vals.len() ==> t[j + x] == digit_char(#[trigger] vals[x]),
        j + vals.len() == t.len() || !is_digit(t[j + vals.len()]),
    ensures
        sp_digit_run(t, j) == (vals, j + vals.len()),
    decreases vals.len(),
{
    if vals.len() == 0 {
        assert(sp_digit_run(t, j) == (Seq::<u8>::empty(), j));
        assert(vals =~= Seq::<u8>::empty());
    } else {
        lemma_digit_char_facts(vals[0]);
        assert(t[j] == digit_char(vals[0]));
        let tail = vals.subrange(1, vals.len() as int);
        assert forall|x: int| 0 <= x < tail.len() implies t[j + 1 + x] == digit_char(
            #[trigger] tail[x],
        ) by {
            assert(tail[x] == vals[x + 1]);
            assert(t[j + (x + 1)] == digit_char(vals[x + 1]));
        }
        lemma_run_window(t, j + 1, tail);
        assert(seq![digit_val(t[j])] + tail =~= vals);
    }
}

/// Digit values of the decimal text of `n`.
spec fn digits_of_nat(n: int) -> Seq<u8>
    decreases n,
{
    if n <= 9 {
        seq![(if 0 <= n { n } else { 0 }) as u8]
    } else {
        digits_of_nat(n / 10) + seq![(n % 10) as u8]
    }
}

/// The decimal text of `n` is, character for character, the digit
/// characters of `digits_of_nat(n)`.
proof fn lemma_dec_text_digits(n: int)
    requires
        0 <= n,
    ensures
        dec_text(n).len() == digits_of_nat(n).len(),
        forall|x: int|
            0 <= x < dec_text(n).len() ==> #[trigger] dec_text(n)[x] == digit_char(
                digits_of_nat(n)[x],
            ),
        forall|x: int| 0 <= x < digits_of_nat(n).len() ==> #[trigger] digits_of_nat(n)[x] <= 9,
    decreases n,
{
    if n > 9 {
        lemma_dec_text_digits(n / 10);
        assert forall|x: int| 0 <= x < dec_text(n).len() implies #[trigger] dec_text(n)[x]
            == digit_char(digits_of_nat(n)[x]) by {
            if x < dec_text(n / 10).len() {
                assert(dec_text(n)[x] == dec_text(n / 10)[x]);
                assert(digits_of_nat(n)[x] == digits_of_nat(n / 10)[x]);
            }
        }
    }
}

/// Reading the digits of `n` back gives `n`, below the saturation bound.
proof fn lemma_digits_of_nat_val(n: int)
    requires
        0 <= n < EXP_SAT as int,
    ensures
        dec_val_sat(digits_of_nat(n)) == n,
    decreases n,
{
    if n <= 9 {
        let d = digits_of_nat(n);
        assert(d.subrange(0, 0) =~= Seq::<u8>::empty());
        assert(dec_val_sat(d.subrange(0, 0)) == 0);
        assert(d =~= d.subrange(0, 1));
        assert(dec_val_sat(d) == n);
    } else {
        lemma_digits_of_nat_val(n / 10);
        let d = digits_of_nat(n);
        assert(d.subrange(0, d.len() - 1) =~= digits_of_nat(n / 10));
        assert(d[d.len() - 1] == (n % 10) as u8);
        assert(dec_val_sat(d) == n);
    }
}

/// Index view of a rendered digit range.
proof fn lemma_digits_range_index(ds: Seq<u8>, a: int, b: int)
    requires
        0 <= a <= b <= ds.len(),
    ensures
        digits_range(ds, a, b).len() == b - a,
        forall|x: int|
            0 <= x < b - a ==> #[trigger] digits_range(ds, a, b)[x] == digit_char(ds[a + x]),
    decreases b - a,
{
    if a < b {
        lemma_digits_range_index(ds, a + 1, b);
        assert forall|x: int| 0 <= x < b - a implies #[trigger] digits_range(ds, a, b)[x]
            == digit_char(ds[a + x]) by {
            if x > 0 {
                assert(digits_range(ds, a, b)[x] == digits_range(ds, a + 1, b)[x - 1]);
            }
        }
    }
}

/// Parsing the exponential rendering of a canonical nonzero number
/// recovers its parts.
#[verifier::spinoff_prover]
#[verifier::rlimit(100)]
proof fn lemma_rt_num_exp(neg: bool, ds: Seq<u8>, e: int)
    requires
        num_wf(neg, ds, e),
        ds.len() > 0,
        e < -4 || e > 15,
    ensures
        crate::parse::sp_number(ser_num(neg, ds, e), 0) == Ok::<(SpecVal, int), ParseError>(
            (SpecVal::NumV { neg, digits: ds, exp: e }, ser_num(neg, ds, e).len() as int),
        ),
{
    let t = ser_num(neg, ds, e);
    let m = ds.len() as int;
    let sign: Seq<char> = if neg { seq!['-'] } else { Seq::<char>::empty() };
    let fracpart: Seq<char> = if m > 1 { seq!['.'] + digits_range(ds, 1, m) } else {
        Seq::<char>::empty()
    };
    let ea = if e < 0 { -e } else { e };
    let esign: Seq<char> = if e < 0 { seq!['-'] } else { Seq::<char>::empty() };
    let body = seq![digit_char(ds[0])] + fracpart + seq!['e'] + int_text(e);
    assert(t == sign + body);
    assert(int_text(e) == esign + dec_text(ea));
    lemma_digits_range_index(ds, 1, m);
    lemma_dec_text_digits(ea);
    lemma_digit_char_facts(ds[0]);
    let i1: int = if neg { 1 } else { 0 };
    // positions of the pieces
    let pfrac = i1 + 1;
    let pe = pfrac + fracpart.len();
    let pexp = pe + 1 + esign.len();
    let pend = pexp + dec_text(ea).len();
    assert(t.len() == pend);
    assert(t[i1] == digit_char(ds[0]));
    assert(neg ==> t[0] == '-');
    assert(!neg ==> t[0] == digit_char(ds[0]) && t[0] != '-');
    assert(t[pe] == 'e');
    assert(e < 0 ==> t[pe + 1] == '-');
    assert forall|x: int| 0 <= x < dec_text(ea).len() implies t[pexp + x] == digit_char(
        #[trigger] digits_of_nat(ea)[x],
    ) by {
        assert(t[pexp + x] == dec_text(ea)[x]);
    }
    // integer part: a single nonzero digit, then '.' or 'e'
    assert(ds[0] != 0);
    assert(t[i1] != '0');
    assert(is_digit(t[i1]));
    if m > 1 {
        assert(t[i1 + 1] == '.');
        assert(!is_digit('.'));
    } else {
        assert(t[i1 + 1] == 'e');
        assert(!is_digit('e'));
    }
    assert(sp_digit_run(t, i1) == (seq![ds[0]], i1 + 1)) by {
        lemma_run_window(t, i1, seq![ds[0]]);
    }
    assert(sp_int_digits(t, i1) == Ok::<(Seq<u8>, int), ParseError>((seq![ds[0]], i1 + 1)));
    // fraction
    let fracs: Seq<u8> = if m > 1 { ds.subrange(1, m) } else { Seq::<u8>::empty() };
    if m > 1 {
        assert forall|x: int| 0 <= x < m - 1 implies t[pfrac + 1 + x] == digit_char(
            #[trigger] fracs[x],
        ) by {
            assert(t[pfrac + 1 + x] == digits_range(ds, 1, m)[x]);
            assert(fracs[x] == ds[1 + x]);
        }
        assert(t[pe] == 'e' && !is_digit('e'));
        lemma_run_window(t, pfrac + 1, fracs);
        lemma_digit_char_facts(fracs[0]);
        assert(is_digit(t[pfrac + 1]));
        assert(sp_frac(t, i1 + 1) == Ok::<(Seq<u8>, int), ParseError>((fracs, pe)));
    } else {
        assert(sp_frac(t, i1 + 1) == Ok::<(Seq<u8>, int), ParseError>((fracs, pe)));
    }
    // exponent
    assert(0 <= ea < EXP_SAT as int) by {
        assert(EXP_MIN as int <= e <= 308);
    }
    lemma_digits_of_nat_val(ea);
    assert(sp_digit_run(t, pexp) == (digits_of_nat(ea), pend)) by {
        lemma_run_window(t, pexp, digits_of_nat(ea));
    }
    assert(is_digit(t[pexp])) by {
        lemma_digit_char_facts(digits_of_nat(ea)[0]);
        assert(t[pexp] == digit_char(digits_of_nat(ea)[0]));
    }
    assert(e >= 0 ==> t[pe + 1] == digit_char(digits_of_nat(ea)[0]));
    assert(e >= 0 ==> t[pe + 1] != '-' && t[pe + 1] != '+');
    assert(sp_exp_part(t, pe) == Ok::<(bool, Seq<u8>, int), ParseError>(
        ((e < 0), digits_of_nat(ea), pend),
    ));
    // conversion
    let dall = seq![ds[0]] + fracs;
    assert(dall =~= ds);
    assert(!all_zero(ds));
    lemma_count_lead(ds, 0);
    lemma_count_trail(ds, 0);
    assert(canon_digits(ds) =~= ds);
    assert(dec_val_sat(digits_of_nat(ea)) == ea);
    assert(canon_exp(ds, fracs.len() as int, e < 0, digits_of_nat(ea)) == e);
    assert(!num_too_big(canon_digits(ds), e));
    assert(!(e < EXP_MIN as int));
}

/// Index view of a zero run.
proof fn lemma_zeros_index(k: int)
    requires
        0 <= k,
    ensures
        zeros(k).len() == k,
        forall|x: int| 0 <= x < k ==> #[trigger] zeros(k)[x] == '0',
    decreases k,
{
    if k > 0 {
        lemma_zeros_index(k - 1);
        assert forall|x: int| 0 <= x < k implies #[trigger] zeros(k)[x] == '0' by {
            if x > 0 {
                assert(zeros(k)[x] == zeros(k - 1)[x - 1]);
            }
        }
    }
}

/// Parsing the all-integer positional rendering recovers the parts.
#[verifier::spinoff_prover]
#[verifier::rlimit(100)]
proof fn lemma_rt_num_int(neg: bool, ds: Seq<u8>, e: int)
    requires
        num_wf(neg, ds, e),
        ds.len() > 0,
        -4 <= e <= 15,
        e >= ds.len() - 1,
    ensures
        crate::parse::sp_number(ser_num(neg, ds, e), 0) == Ok::<(SpecVal, int), ParseError>(
            (SpecVal::NumV { neg, digits: ds, exp: e }, ser_num(neg, ds, e).len() as int),
        ),
{
    let t = ser_num(neg, ds, e);
    let m = ds.len() as int;
    let z = e - (m - 1);
    let sign: Seq<char> = if neg { seq!['-'] } else { Seq::<char>::empty() };
    assert(t == sign + (digits_range(ds, 0, m) + zeros(z)));
    lemma_digits_range_index(ds, 0, m);
    lemma_zeros_index(z);
    lemma_digit_char_facts(ds[0]);
    let i1: int = if neg { 1 } else { 0 };
    let zvals = Seq::<u8>::new(z as nat, |x: int| 0u8);
    let dall = ds + zvals;
    let pend = i1 + m + z;
    assert(t.len() == pend);
    assert(neg ==> t[0] == '-');
    assert forall|x: int| 0 <= x < dall.len() implies t[i1 + x] == digit_char(
        #[trigger] dall[x],
    ) by {
        if x < m {
            assert(t[i1 + x] == digits_range(ds, 0, m)[x]);
        } else {
            assert(t[i1 + x] == zeros(z)[x - m]);
            assert(digit_char(0) == '0');
        }
    }
    assert(t[i1] == digit_char(ds[0]));
    assert(ds[0] != 0);
    assert(t[i1] != '0');
    assert(is_digit(t[i1]));
    assert(!neg ==> t[0] != '-');
    lemma_run_window(t, i1, dall);
    assert(sp_int_digits(t, i1) == Ok::<(Seq<u8>, int), ParseError>((dall, pend)));
    assert(sp_frac(t, pend) == Ok::<(Seq<u8>, int), ParseError>((Seq::<u8>::empty(), pend)));
    assert(sp_exp_part(t, pend) == Ok::<(bool, Seq<u8>, int), ParseError>(
        (false, Seq::<u8>::empty(), pend),
    ));
    assert(dall + Seq::<u8>::empty() =~= dall);
    assert(!all_zero(dall)) by {
        assert(dall[0] == ds[0]);
    }
    lemma_count_lead(dall, 0);
    lemma_count_trail(dall, z);
    assert(canon_digits(dall) =~= ds);
    assert(dec_val_sat(Seq::<u8>::empty()) == 0);
    assert(canon_exp(dall, 0, false, Seq::<u8>::empty()) == e);
    assert(!num_too_big(ds, e));
    assert(!(e < EXP_MIN as int));
}

/// Parsing the positional rendering with a fraction recovers the parts.
#[verifier::spinoff_prover]
#[verifier::rlimit(100)]
proof fn lemma_rt_num_frac(neg: bool, ds: Seq<u8>, e: int)
    requires
        num_wf(neg, ds, e),
        ds.len() > 0,
        0 <= e <= 15,
        e < ds.len() - 1,
    ensures
        crate::parse::sp_number(ser_num(neg, ds, e), 0) == Ok::<(SpecVal, int), ParseError>(
            (SpecVal::NumV { neg, digits: ds, exp: e }, ser_num(neg, ds, e).len() as int),
        ),
{
    let t = ser_num(neg, ds, e);
    let m = ds.len() as int;
    let sign: Seq<char> = if neg { seq!['-'] } else { Seq::<char>::empty() };
    assert(t == sign + (digits_range(ds, 0, e + 1) + seq!['.'] + digits_range(ds, e + 1, m)));
    lemma_digits_range_index(ds, 0, e + 1);
    lemma_digits_range_index(ds, e + 1, m);
    lemma_digit_char_facts(ds[0]);
    let i1: int = if neg { 1 } else { 0 };
    let pdot = i1 + e + 1;
    let pend = pdot + 1 + (m - e - 1);
    assert(t.len() == pend);
    assert(neg ==> t[0] == '-');
    let ints = ds.subrange(0, e + 1);
    let fracs = ds.subrange(e + 1, m);
    assert forall|x: int| 0 <= x < e + 1 implies t[i1 + x] == digit_char(
        #[trigger] ints[x],
    ) by {
        assert(t[i1 + x] == digits_range(ds, 0, e + 1)[x]);
    }
    assert(t[pdot] == '.');
    assert(!is_digit('.'));
    assert forall|x: int| 0 <= x < m - e - 1 implies t[pdot + 1 + x] == digit_char(
        #[trigger] fracs[x],
    ) by {
        assert(t[pdot + 1 + x] == digits_range(ds, e + 1, m)[x]);
    }
    assert(t[i1] == digit_char(ds[0]));
    assert(ds[0] != 0);
    assert(t[i1] != '0');
    assert(is_digit(t[i1]));
    assert(!neg ==> t[0] != '-');
    lemma_run_window(t, i1, ints);
    assert(sp_int_digits(t, i1) == Ok::<(Seq<u8>, int), ParseError>((ints, pdot)));
    lemma_run_window(t, pdot + 1, fracs);
    lemma_digit_char_facts(fracs[0]);
    assert(is_digit(t[pdot + 1]));
    assert(sp_frac(t, pdot) == Ok::<(Seq<u8>, int), ParseError>((fracs, pend)));
    assert(sp_exp_part(t, pend) == Ok::<(bool, Seq<u8>, int), ParseError>(
        (false, Seq::<u8>::empty(), pend),
    ));
    let dall = ints + fracs;
    assert(dall =~= ds);
    assert(!all_zero(ds));
    lemma_count_lead(ds, 0);
    lemma_count_trail(ds, 0);
    assert(canon_digits(ds) =~= ds);
    assert(dec_val_sat(Seq::<u8>::empty()) == 0);
    assert(canon_exp(ds, fracs.len() as int, false, Seq::<u8>::empty()) == e);
    assert(!num_too_big(ds, e));
    assert(!(e < EXP_MIN as int));
}

/// Parsing the sub-one positional rendering recovers the parts.
#[verifier::spinoff_prover]
#[verifier::rlimit(100)]
proof fn lemma_rt_num_small(neg: bool, ds: Seq<u8>, e: int)
    requires
        num_wf(neg, ds, e),
        ds.len() > 0,
        -4 <= e < 0,
    ensures
        crate::parse::sp_number(ser_num(neg, ds, e), 0) == Ok::<(SpecVal, int), ParseError>(
            (SpecVal::NumV { neg, digits: ds, exp: e }, ser_num(neg, ds, e).len() as int),
        ),
{
    let t = ser_num(neg, ds, e);
    let m = ds.len() as int;
    let z = -e - 1;
    let sign: Seq<char> = if neg { seq!['-'] } else { Seq::<char>::empty() };
    assert(t == sign + (seq!['0', '.'] + zeros(z) + digits_range(ds, 0, m)));
    lemma_digits_range_index(ds, 0, m);
    lemma_zeros_index(z);
    lemma_digit_char_facts(ds[0]);
    let i1: int = if neg { 1 } else { 0 };
    let pdot = i1 + 1;
    let pfd = pdot + 1;
    let pend = pfd + z + m;
    assert(t.len() == pend);
    assert(neg ==> t[0] == '-');
    assert(t[i1] == '0');
    assert(!neg ==> t[0] == '0' && t[0] != '-');
    assert(t[pdot] == '.');
    let zvals = Seq::<u8>::new(z as nat, |x: int| 0u8);
    let fracs = zvals + ds;
    assert forall|x: int| 0 <= x < z + m implies t[pfd + x] == digit_char(
        #[trigger] fracs[x],
    ) by {
        if x < z {
            assert(t[pfd + x] == zeros(z)[x]);
            assert(digit_char(0) == '0');
        } else {
            assert(t[pfd + x] == digits_range(ds, 0, m)[x - z]);
        }
    }
    assert(sp_int_digits(t, i1) == Ok::<(Seq<u8>, int), ParseError>((seq![0u8], pdot)));
    lemma_run_window(t, pfd, fracs);
    assert(is_digit(t[pfd])) by {
        lemma_digit_char_facts(fracs[0]);
        assert(t[pfd] == digit_char(fracs[0]));
    }
    assert(sp_frac(t, pdot) == Ok::<(Seq<u8>, int), ParseError>((fracs, pend)));
    assert(sp_exp_part(t, pend) == Ok::<(bool, Seq<u8>, int), ParseError>(
        (false, Seq::<u8>::empty(), pend),
    ));
    let dall = seq![0u8] + fracs;
    assert(!all_zero(dall)) by {
        assert(dall[1 + z + 0] == ds[0]);
    }
    assert forall|x: int| 0 <= x < 1 + z implies #[trigger] dall[x] == 0 by {
        if x > 0 {
            assert(dall[x] == fracs[x - 1]);
            assert(fracs[x - 1] == zvals[x - 1]);
        }
    }
    assert(dall[1 + z] == ds[0]);
    lemma_count_lead(dall, 1 + z);
    assert(dall[dall.len() - 1] == ds[m - 1]);
    lemma_count_trail(dall, 0);
    assert(canon_digits(dall) =~= ds);
    assert(dec_val_sat(Seq::<u8>::empty()) == 0);
    assert(canon_exp(dall, fracs.len() as int, false, Seq::<u8>::empty()) == e);
    assert(!num_too_big(ds, e));
    assert(!(e < EXP_MIN as int));
}

/// Round-trip for numbers: parsing the rendering of any canonical finite
/// number recovers exactly its sign, digits and exponent.
pub proof fn lemma_number_roundtrip(neg: bool, ds: Seq<u8>, e: int)
    requires
        num_wf(neg, ds, e),
    ensures
        crate::parse::sp_number(ser_num(neg, ds, e), 0) == Ok::<(SpecVal, int), ParseError>(
            (SpecVal::NumV { neg, digits: ds, exp: e }, ser_num(neg, ds, e).len() as int),
        ),
{
    if ds.len() == 0 {
        let t = ser_num(neg, ds, e);
        assert(t =~= seq!['0']);
        assert(t[0] == '0');
        assert(sp_int_digits(t, 0) == Ok::<(Seq<u8>, int), ParseError>((seq![0u8], 1)));
        assert(sp_frac(t, 1) == Ok::<(Seq<u8>, int), ParseError>((Seq::<u8>::empty(), 1)));
        assert(sp_exp_part(t, 1) == Ok::<(bool, Seq<u8>, int), ParseError>(
            (false, Seq::<u8>::empty(), 1),
        ));
        let dall = seq![0u8] + Seq::<u8>::empty();
        assert(all_zero(dall)) by {
            assert(forall|x: int| 0 <= x < dall.len() ==> #[trigger] dall[x] == 0);
        }
        assert(ds =~= Seq::<u8>::empty());
    } else if e < -4 || e > 15 {
        lemma_rt_num_exp(neg, ds, e);
    } else if e >= ds.len() - 1 {
        lemma_rt_num_int(neg, ds, e);
    } else if e >= 0 {
        lemma_rt_num_frac(neg, ds, e);
    } else {
        lemma_rt_num_small(neg, ds, e);
    }
}

} // verus!
