//! Serialization: deterministic rendering of a value tree as JSON text.
//!
//! The functions `ser_value`, `ser_num`, `ser_string` and friends are the
//! specification: they define, character by character, the text that a tree
//! denotes in compact or pretty mode.  The `write_*` functions are the
//! executable writers, each proved to append exactly its specification's
//! text.  Pretty mode puts every element on its own line, indented four
//! spaces per nesting level; indentation is threaded as the literal space
//! characters of the current level.

use vstd::prelude::*;
use crate::num::{Num, EXP_MIN};
use crate::value::{
    arr_view, lemma_char_u32, lemma_swf_list_index, lemma_swf_members_index, obj_view, swf,
    SpecVal, Value,
};

verus! {

broadcast use vstd::std_specs::vec::axiom_vec_index_decreases;

/// Character for the decimal digit `d`.
pub open spec fn digit_char(d: u8) -> char {
    (48 + d as int) as char
}

/// Character for the hexadecimal digit `d`, lowercase.
pub open spec fn hex_char(d: int) -> char {
    if d < 10 {
        (48 + d) as char
    } else {
        (87 + d) as char
    }
}

/// Digits `ds[a..b]` rendered as characters.
pub open spec fn digits_range(ds: Seq<u8>, a: int, b: int) -> Seq<char>
    decreases b - a,
{
    if a < 0 || a >= b {
        Seq::empty()
    } else {
        seq![digit_char(ds[a])] + digits_range(ds, a + 1, b)
    }
}

/// Decimal text of the nonnegative integer `n`, no leading zeros.
pub open spec fn dec_text(n: int) -> Seq<char>
    decreases n,
{
    if n <= 9 {
        seq![digit_char(if 0 <= n { n as u8 } else { 0 })]
    } else {
        dec_text(n / 10) + seq![digit_char((n % 10) as u8)]
    }
}

/// Decimal text of a signed integer.
pub open spec fn int_text(e: int) -> Seq<char> {
    if e < 0 {
        seq!['-'] + dec_text(-e)
    } else {
        dec_text(e)
    }
}

/// `k` zero characters.
pub open spec fn zeros(k: int) -> Seq<char>
    decreases k,
{
    if k <= 0 {
        Seq::empty()
    } else {
        seq!['0'] + zeros(k - 1)
    }
}

/// Rendering of a canonical number: positional notation for scientific
/// exponents in `-4..=15` (with no trailing `.0` on integers), exponent
/// notation outside that range; zero renders as `0`.
pub open spec fn ser_num(neg: bool, ds: Seq<u8>, exp: int) -> Seq<char> {
    if ds.len() == 0 {
        seq!['0']
    } else {
        let sign: Seq<char> = if neg {
            seq!['-']
        } else {
            Seq::empty()
        };
        let m = ds.len() as int;
        let body: Seq<char> = if -4 <= exp && exp <= 15 {
            if exp >= m - 1 {
                digits_range(ds, 0, m) + zeros(exp - (m - 1))
            } else if exp >= 0 {
                digits_range(ds, 0, exp + 1) + seq!['.'] + digits_range(ds, exp + 1, m)
            } else {
                seq!['0', '.'] + zeros(-exp - 1) + digits_range(ds, 0, m)
            }
        } else {
            seq![digit_char(ds[0])] + (
                if m > 1 {
                    seq!['.'] + digits_range(ds, 1, m)
                } else {
                    Seq::empty()
                }
            ) + seq!['e'] + int_text(exp)
        };
        sign + body
    }
}

/// Escape of one character inside a string literal: the short escapes for
/// quote, backslash and the five named controls, `\u00xx` for the other
/// characters below 0x20, the character itself otherwise.  The solidus is
/// never escaped on output.
pub open spec fn esc_char(c: char) -> Seq<char> {
    if c == '"' {
        seq!['\\', '"']
    } else if c == '\\' {
        seq!['\\', '\\']
    } else if c == '\u{8}' {
        seq!['\\', 'b']
    } else if c == '\u{c}' {
        seq!['\\', 'f']
    } else if c == '\n' {
        seq!['\\', 'n']
    } else if c == '\r' {
        seq!['\\', 'r']
    } else if c == '\t' {
        seq!['\\', 't']
    } else if (c as int) < 32 {
        seq!['\\', 'u', '0', '0', hex_char(c as int / 16), hex_char(c as int % 16)]
    } else {
        seq![c]
    }
}

/// Escaped rendering of the characters `s[a..b]`.
pub open spec fn ser_str_range(s: Seq<char>, a: int, b: int) -> Seq<char>
    decreases b - a,
{
    if a < 0 || a >= b {
        Seq::empty()
    } else {
        esc_char(s[a]) + ser_str_range(s, a + 1, b)
    }
}

/// Rendering of a string value: quoted and escaped.
pub open spec fn ser_string(s: Seq<char>) -> Seq<char> {
    seq!['"'] + ser_str_range(s, 0, s.len() as int) + seq!['"']
}

/// Four spaces, one indentation step.
pub open spec fn sp4() -> Seq<char> {
    seq![' ', ' ', ' ', ' ']
}

/// Line break plus current indentation in pretty mode, nothing in compact.
pub open spec fn nl_indent(pretty: bool, ind: Seq<char>) -> Seq<char> {
    if pretty {
        seq!['\n'] + ind
    } else {
        Seq::empty()
    }
}

/// Rendering of the first `i` array elements, separated by commas, each
/// preceded by the pretty line break at child indentation `ind`.
pub open spec fn ser_items(items: Seq<SpecVal>, pretty: bool, ind: Seq<char>, i: int) -> Seq<char>
    decreases items, i,
{
    if i <= 0 {
        Seq::empty()
    } else {
        ser_items(items, pretty, ind, i - 1) + (
            if i - 1 > 0 {
                seq![',']
            } else {
                Seq::empty()
            }
        ) + nl_indent(pretty, ind) + (
            if 0 <= i - 1 < items.len() {
                ser_value(items[i - 1], pretty, ind)
            } else {
                Seq::empty()
            }
        )
    }
}

/// Rendering of the first `i` object members: key, colon (plus one space in
/// pretty mode), value.
pub open spec fn ser_members(
    members: Seq<(Seq<char>, SpecVal)>,
    pretty: bool,
    ind: Seq<char>,
    i: int,
) -> Seq<char>
    decreases members, i,
{
    if i <= 0 {
        Seq::empty()
    } else {
        ser_members(members, pretty, ind, i - 1) + (
            if i - 1 > 0 {
                seq![',']
            } else {
                Seq::empty()
            }
        ) + nl_indent(pretty, ind) + (
            if 0 <= i - 1 < members.len() {
                ser_string(members[i - 1].0) + seq![':'] + (
                    if pretty {
                        seq![' ']
                    } else {
                        Seq::empty()
                    }
                ) + ser_value(members[i - 1].1, pretty, ind)
            } else {
                Seq::empty()
            }
        )
    }
}

/// Rendering of a value at indentation `ind`: the complete, deterministic
/// JSON text of the tree.
pub open spec fn ser_value(v: SpecVal, pretty: bool, ind: Seq<char>) -> Seq<char>
    decreases v, 0int,
{
    match v {
        SpecVal::NullV => seq!['n', 'u', 'l', 'l'],
        SpecVal::BoolV(b) => if b {
            seq!['t', 'r', 'u', 'e']
        } else {
            seq!['f', 'a', 'l', 's', 'e']
        },
        SpecVal::NumV { neg, digits, exp } => ser_num(neg, digits, exp),
        SpecVal::StrV(s) => ser_string(s),
        SpecVal::ArrV(items) => seq!['['] + (
            if items.len() == 0 {
                Seq::empty()
            } else {
                ser_items(items, pretty, ind + sp4(), items.len() as int) + nl_indent(pretty, ind)
            }
        ) + seq![']'],
        SpecVal::ObjV(members) => seq!['{'] + (
            if members.len() == 0 {
                Seq::empty()
            } else {
                ser_members(members, pretty, ind + sp4(), members.len() as int) + nl_indent(
                    pretty,
                    ind,
                )
            }
        ) + seq!['}'],
    }
}

/// Rendering of a whole document: a value at top level, no indentation.
pub open spec fn ser_top(v: SpecVal, pretty: bool) -> Seq<char> {
    ser_value(v, pretty, Seq::empty())
}

/// Appending one more digit extends the rendered range by one character.
proof fn lemma_digits_range_snoc(ds: Seq<u8>, a: int, b: int)
    requires
        0 <= a <= b < ds.len(),
    ensures
        digits_range(ds, a, b + 1) == digits_range(ds, a, b) + seq![digit_char(ds[b])],
    decreases b - a,
{
    if a < b {
        lemma_digits_range_snoc(ds, a + 1, b);
        assert(digits_range(ds, a, b + 1) =~= digits_range(ds, a, b) + seq![digit_char(ds[b])]);
    } else {
        assert(digits_range(ds, a + 1, a + 1) =~= Seq::<char>::empty());
        assert(digits_range(ds, a, a) =~= Seq::<char>::empty());
        assert(digits_range(ds, a, b + 1) =~= digits_range(ds, a, b) + seq![digit_char(ds[b])]);
    }
}

/// Appending one more character extends the escaped range by its escape.
proof fn lemma_ser_str_range_snoc(s: Seq<char>, a: int, b: int)
    requires
        0 <= a <= b < s.len(),
    ensures
        ser_str_range(s, a, b + 1) == ser_str_range(s, a, b) + esc_char(s[b]),
    decreases b - a,
{
    if a < b {
        lemma_ser_str_range_snoc(s, a + 1, b);
        assert(ser_str_range(s, a, b + 1) =~= ser_str_range(s, a, b) + esc_char(s[b]));
    } else {
        assert(ser_str_range(s, a + 1, a + 1) =~= Seq::<char>::empty());
        assert(ser_str_range(s, a, a) =~= Seq::<char>::empty());
        assert(ser_str_range(s, a, b + 1) =~= ser_str_range(s, a, b) + esc_char(s[b]));
    }
}

/// One more zero character.
proof fn lemma_zeros_snoc(k: int)
    requires
        k >= 0,
    ensures
        zeros(k + 1) == zeros(k) + seq!['0'],
    decreases k,
{
    if k > 0 {
        lemma_zeros_snoc(k - 1);
        assert(zeros(k + 1) =~= zeros(k) + seq!['0']);
    } else {
        assert(zeros(0) =~= Seq::<char>::empty());
        assert(zeros(1) =~= zeros(0) + seq!['0']);
    }
}

/// Executable digit character.
fn digit_char_exec(d: u8) -> (c: char)
    requires
        d <= 9,
    ensures
        c == digit_char(d),
{
    match d {
        0 => '0',
        1 => '1',
        2 => '2',
        3 => '3',
        4 => '4',
        5 => '5',
        6 => '6',
        7 => '7',
        8 => '8',
        _ => '9',
    }
}

/// Executable lowercase hexadecimal digit character.
fn hex_char_exec(d: u8) -> (c: char)
    requires
        d <= 15,
    ensures
        c == hex_char(d as int),
{
    match d {
        0 => '0',
        1 => '1',
        2 => '2',
        3 => '3',
        4 => '4',
        5 => '5',
        6 => '6',
        7 => '7',
        8 => '8',
        9 => '9',
        10 => 'a',
        11 => 'b',
        12 => 'c',
        13 => 'd',
        14 => 'e',
        _ => 'f',
    }
}

/// Appends the decimal text of `n`.
pub(crate) fn write_dec(out: &mut Vec<char>, n: u64)
    ensures
        final(out)@ == old(out)@ + dec_text(n as int),
    decreases n,
{
    if n <= 9 {
        out.push(digit_char_exec(n as u8));
        assert(out@ =~= old(out)@ + dec_text(n as int));
    } else {
        write_dec(out, n / 10);
        out.push(digit_char_exec((n % 10) as u8));
        assert(out@ =~= old(out)@ + dec_text(n as int));
    }
}

/// Appends the digit characters of `ds[from..to]`.
fn write_digits(out: &mut Vec<char>, ds: &Vec<u8>, from: usize, to: usize)
    requires
        from <= to <= ds@.len(),
        forall|i: int| 0 <= i < ds@.len() ==> #[trigger] ds@[i] <= 9,
    ensures
        final(out)@ == old(out)@ + digits_range(ds@, from as int, to as int),
{
    let mut k = from;
    while k < to
        invariant
            from <= k <= to <= ds@.len(),
            forall|i: int| 0 <= i < ds@.len() ==> #[trigger] ds@[i] <= 9,
            out@ == old(out)@ + digits_range(ds@, from as int, k as int),
        decreases to - k,
    {
        out.push(digit_char_exec(ds[k]));
        proof {
            lemma_digits_range_snoc(ds@, from as int, k as int);
        }
        k = k + 1;
    }
}

/// Appends `count` zero characters.
fn write_zeros(out: &mut Vec<char>, count: u64)
    ensures
        final(out)@ == old(out)@ + zeros(count as int),
{
    let mut k: u64 = 0;
    while k < count
        invariant
            k <= count,
            out@ == old(out)@ + zeros(k as int),
        decreases count - k,
    {
        out.push('0');
        proof {
            lemma_zeros_snoc(k as int);
        }
        k = k + 1;
    }
}

/// Appends the rendering of one number.
#[verifier::rlimit(50)]
pub fn write_number(out: &mut Vec<char>, n: &Num)
    requires
        n.wf(),
    ensures
        final(out)@ == old(out)@ + ser_num(n.neg_spec(), n.digits_spec(), n.exp_spec()),
{
    let ds = n.get_digits();
    let m = ds.len();
    if m == 0 {
        out.push('0');
        assert(out@ =~= old(out)@ + ser_num(n.neg_spec(), n.digits_spec(), n.exp_spec()));
        return;
    }
    let ghost base = out@;
    if n.is_neg() {
        out.push('-');
    }
    let ghost signed = out@;
    let e = n.get_exp();
    if -4 <= e && e <= 15 {
        if m <= 16 && e >= (m as i64) - 1 {
            write_digits(out, ds, 0, m);
            write_zeros(out, (e + 1 - (m as i64)) as u64);
        } else if e >= 0 {
            let cut = (e + 1) as usize;
            write_digits(out, ds, 0, cut);
            out.push('.');
            write_digits(out, ds, cut, m);
        } else {
            out.push('0');
            out.push('.');
            write_zeros(out, ((-e) - 1) as u64);
            write_digits(out, ds, 0, m);
        }
    } else {
        out.push(digit_char_exec(ds[0]));
        if m > 1 {
            out.push('.');
            write_digits(out, ds, 1, m);
        }
        out.push('e');
        if e < 0 {
            out.push('-');
            write_dec(out, (-e) as u64);
        } else {
            write_dec(out, e as u64);
        }
    }
    assert(out@ =~= old(out)@ + ser_num(n.neg_spec(), n.digits_spec(), n.exp_spec()));
}

/// Appends the quoted, escaped rendering of one string.
pub fn write_string(out: &mut Vec<char>, s: &Vec<char>)
    ensures
        final(out)@ == old(out)@ + ser_string(s@),
{
    out.push('"');
    let mut k: usize = 0;
    while k < s.len()
        invariant
            k <= s@.len(),
            out@ == old(out)@ + seq!['"'] + ser_str_range(s@, 0, k as int),
        decreases s@.len() - k,
    {
        let c = s[k];
        let ghost pre = out@;
        if c == '"' {
            out.push('\\');
            out.push('"');
            assert(out@ =~= pre + esc_char(c));
        } else if c == '\\' {
            out.push('\\');
            out.push('\\');
            assert(out@ =~= pre + esc_char(c));
        } else if c == '\u{8}' {
            out.push('\\');
            out.push('b');
            assert(out@ =~= pre + esc_char(c));
        } else if c == '\u{c}' {
            out.push('\\');
            out.push('f');
            assert(out@ =~= pre + esc_char(c));
        } else if c == '\n' {
            out.push('\\');
            out.push('n');
            assert(out@ =~= pre + esc_char(c));
        } else if c == '\r' {
            out.push('\\');
            out.push('r');
            assert(out@ =~= pre + esc_char(c));
        } else if c == '\t' {
            out.push('\\');
            out.push('t');
            assert(out@ =~= pre + esc_char(c));
        } else if (c as u32) < 32 {
            let v = c as u32;
            out.push('\\');
            out.push('u');
            out.push('0');
            out.push('0');
            out.push(hex_char_exec((v / 16) as u8));
            out.push(hex_char_exec((v % 16) as u8));
            proof {
                lemma_char_u32(c);
                assert(v as int == c as int);
                assert(esc_char(c) =~= seq![
                    '\\',
                    'u',
                    '0',
                    '0',
                    hex_char(c as int / 16),
                    hex_char(c as int % 16),
                ]);
                assert(out@ =~= pre + esc_char(c));
            }
        } else {
            out.push(c);
            proof {
                lemma_char_u32(c);
                assert(out@ =~= pre + esc_char(c));
            }
        }
        proof {
            assert(out@ =~= old(out)@ + seq!['"'] + ser_str_range(s@, 0, k as int) + esc_char(
                s@[k as int],
            ));
            lemma_ser_str_range_snoc(s@, 0, k as int);
            assert(out@ =~= old(out)@ + seq!['"'] + ser_str_range(s@, 0, k as int + 1));
        }
        k = k + 1;
    }
    out.push('"');
    assert(out@ =~= old(out)@ + ser_string(s@));
}

/// In pretty mode, appends a line break and the current indentation;
/// in compact mode, appends nothing.
pub fn pretty_writeln_indent(out: &mut Vec<char>, pretty: bool, indent: &Vec<char>)
    ensures
        final(out)@ == old(out)@ + nl_indent(pretty, indent@),
{
    if pretty {
        out.push('\n');
        let mut k: usize = 0;
        while k < indent.len()
            invariant
                k <= indent@.len(),
                out@ == old(out)@ + seq!['\n'] + indent@.subrange(0, k as int),
            decreases indent@.len() - k,
        {
            out.push(indent[k]);
            proof {
                assert(indent@.subrange(0, k as int + 1) =~= indent@.subrange(0, k as int)
                    + seq![indent@[k as int]]);
            }
            k = k + 1;
        }
        proof {
            assert(indent@.subrange(0, indent@.len() as int) =~= indent@);
            assert(out@ =~= old(out)@ + nl_indent(pretty, indent@));
        }
    } else {
        proof {
            assert(out@ =~= old(out)@ + nl_indent(pretty, indent@));
        }
    }
}

/// Appends the rendering of an array.
pub fn write_array(out: &mut Vec<char>, items: &Vec<Value>, pretty: bool, indent: &mut Vec<char>)
    requires
        swf(SpecVal::ArrV(arr_view(*items))),
    ensures
        final(out)@ == old(out)@ + ser_value(SpecVal::ArrV(arr_view(*items)), pretty, old(indent)@),
        final(indent)@ == old(indent)@,
    decreases *items,
{
    let ghost sitems = arr_view(*items);
    out.push('[');
    if items.len() > 0 {
        indent.push(' ');
        indent.push(' ');
        indent.push(' ');
        indent.push(' ');
        proof {
            assert(indent@ =~= old(indent)@ + sp4());
        }
        let ghost child = indent@;
        let mut k: usize = 0;
        while k < items.len()
            invariant
                k <= items@.len(),
                items@.len() > 0,
                indent@ == child,
                child == old(indent)@ + sp4(),
                sitems == arr_view(*items),
                swf(SpecVal::ArrV(sitems)),
                out@ == old(out)@ + seq!['['] + ser_items(sitems, pretty, child, k as int),
            decreases items@.len() - k,
        {
            if k != 0 {
                out.push(',');
            }
            pretty_writeln_indent(out, pretty, indent);
            proof {
                assert(sitems.len() == items@.len());
                assert(sitems[k as int] == items@[k as int]@);
                lemma_swf_list_index(sitems, sitems.len() as int, k as int);
                assert(swf(sitems[k as int]));
            }
            write_value(out, &items[k], pretty, indent);
            proof {
                assert(out@ =~= old(out)@ + seq!['['] + ser_items(
                    sitems,
                    pretty,
                    child,
                    k as int + 1,
                ));
            }
            k = k + 1;
        }
        let _ = indent.pop();
        let _ = indent.pop();
        let _ = indent.pop();
        let _ = indent.pop();
        proof {
            assert(indent@ =~= old(indent)@);
        }
        pretty_writeln_indent(out, pretty, indent);
    }
    out.push(']');
    assert(out@ =~= old(out)@ + ser_value(SpecVal::ArrV(sitems), pretty, old(indent)@));
}

/// Appends the rendering of an object, members in stored (sorted) order.
pub fn write_object(
    out: &mut Vec<char>,
    members: &Vec<(Vec<char>, Value)>,
    pretty: bool,
    indent: &mut Vec<char>,
)
    requires
        swf(SpecVal::ObjV(obj_view(*members))),
    ensures
        final(out)@ == old(out)@ + ser_value(SpecVal::ObjV(obj_view(*members)), pretty, old(indent)@),
        final(indent)@ == old(indent)@,
    decreases *members,
{
    let ghost smembers = obj_view(*members);
    out.push('{');
    if members.len() > 0 {
        indent.push(' ');
        indent.push(' ');
        indent.push(' ');
        indent.push(' ');
        proof {
            assert(indent@ =~= old(indent)@ + sp4());
        }
        let ghost child = indent@;
        let mut k: usize = 0;
        while k < members.len()
            invariant
                k <= members@.len(),
                members@.len() > 0,
                indent@ == child,
                child == old(indent)@ + sp4(),
                smembers == obj_view(*members),
                swf(SpecVal::ObjV(smembers)),
                out@ == old(out)@ + seq!['{'] + ser_members(smembers, pretty, child, k as int),
            decreases members@.len() - k,
        {
            if k != 0 {
                out.push(',');
            }
            pretty_writeln_indent(out, pretty, indent);
            write_string(out, &members[k].0);
            out.push(':');
            if pretty {
                out.push(' ');
            }
            proof {
                assert(smembers.len() == members@.len());
                assert(smembers[k as int] == (members@[k as int].0@, members@[k as int].1@));
                lemma_swf_members_index(smembers, smembers.len() as int, k as int);
                assert(swf(smembers[k as int].1));
            }
            write_value(out, &members[k].1, pretty, indent);
            proof {
                assert(out@ =~= old(out)@ + seq!['{'] + ser_members(
                    smembers,
                    pretty,
                    child,
                    k as int + 1,
                ));
            }
            k = k + 1;
        }
        let _ = indent.pop();
        let _ = indent.pop();
        let _ = indent.pop();
        let _ = indent.pop();
        proof {
            assert(indent@ =~= old(indent)@);
        }
        pretty_writeln_indent(out, pretty, indent);
    }
    out.push('}');
    assert(out@ =~= old(out)@ + ser_value(SpecVal::ObjV(smembers), pretty, old(indent)@));
}

/// Appends the rendering of any value at the current indentation.
pub fn write_value(out: &mut Vec<char>, v: &Value, pretty: bool, indent: &mut Vec<char>)
    requires
        swf(v@),
    ensures
        final(out)@ == old(out)@ + ser_value(v@, pretty, old(indent)@),
        final(indent)@ == old(indent)@,
    decreases *v,
{
    match v {
        Value::Null => {
            out.push('n');
            out.push('u');
            out.push('l');
            out.push('l');
            assert(out@ =~= old(out)@ + ser_value(v@, pretty, old(indent)@));
        },
        Value::Boolean(b) => {
            if *b {
                out.push('t');
                out.push('r');
                out.push('u');
                out.push('e');
            } else {
                out.push('f');
                out.push('a');
                out.push('l');
                out.push('s');
                out.push('e');
            }
            assert(out@ =~= old(out)@ + ser_value(v@, pretty, old(indent)@));
        },
        Value::Number(n) => {
            write_number(out, n);
        },
        Value::String(s) => {
            write_string(out, s);
        },
        Value::Array(items) => {
            write_array(out, items, pretty, indent);
        },
        Value::Object(members) => {
            write_object(out, members, pretty, indent);
        },
    }
}

/// Renders a value tree as JSON text, compact or pretty.
pub fn stringify(v: &Value, pretty: bool) -> (r: String)
    requires
        swf(v@),
    ensures
        r@ == ser_top(v@, pretty),
{
    let mut out: Vec<char> = Vec::new();
    let mut indent: Vec<char> = Vec::new();
    proof {
        assert(out@ =~= Seq::<char>::empty());
        assert(indent@ =~= Seq::<char>::empty());
    }
    write_value(&mut out, v, pretty, &mut indent);
    proof {
        assert(out@ =~= ser_top(v@, pretty));
    }
    chars_to_string(&out)
}

/// Relies on `String`'s `FromIterator` over characters: collecting a
/// character vector yields the string with exactly those characters.
#[verifier::external_body]
pub(crate) fn chars_to_string(v: &Vec<char>) -> (r: String)
    ensures
        r@ == v@,
{
    v.iter().collect()
}

} // verus!
