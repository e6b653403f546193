//! The JSON value tree and its mathematical model.
//!
//! `Value` is the executable tree; `SpecVal` is its ghost counterpart, the
//! object that every contract in this crate speaks about.  Numbers are exact
//! decimals in canonical scientific form (see `num`), strings are sequences
//! of Unicode scalar values, and objects keep their members sorted strictly
//! ascending by key.

use vstd::prelude::*;
use crate::num::{Num, num_wf};

verus! {

broadcast use vstd::std_specs::vec::axiom_vec_index_decreases;

/// Ghost mirror of `Value`: the mathematical JSON tree.
pub ghost enum SpecVal {
    NullV,
    BoolV(bool),
    NumV { neg: bool, digits: Seq<u8>, exp: int },
    StrV(Seq<char>),
    ArrV(Seq<SpecVal>),
    ObjV(Seq<(Seq<char>, SpecVal)>),
}

/// A character's scalar value is unchanged by widening to 32 bits.
pub proof fn lemma_char_u32(c: char)
    ensures
        (c as u32) as int == c as int,
{
}

/// Strict lexicographic order on character sequences, by scalar value.
pub open spec fn lex_lt(a: Seq<char>, b: Seq<char>) -> bool
    decreases a.len(),
{
    if b.len() == 0 {
        false
    } else if a.len() == 0 {
        true
    } else if a[0] != b[0] {
        (a[0] as int) < (b[0] as int)
    } else {
        lex_lt(a.subrange(1, a.len() as int), b.subrange(1, b.len() as int))
    }
}

/// Object keys strictly ascending in lexicographic order.
pub open spec fn obj_sorted(members: Seq<(Seq<char>, SpecVal)>) -> bool {
    forall|i: int|
        0 <= i < members.len() - 1 ==> lex_lt(#[trigger] members[i].0, members[i + 1].0)
}

/// Well-formedness of the ghost tree: canonical numbers and strictly
/// sorted object keys, at every level.
pub open spec fn swf(v: SpecVal) -> bool
    decreases v, 0int,
{
    match v {
        SpecVal::NullV => true,
        SpecVal::BoolV(_) => true,
        SpecVal::NumV { neg, digits, exp } => num_wf(neg, digits, exp),
        SpecVal::StrV(_) => true,
        SpecVal::ArrV(items) => swf_list(items, items.len() as int),
        SpecVal::ObjV(members) => swf_members(members, members.len() as int) && obj_sorted(
            members,
        ),
    }
}

/// Well-formedness of the first `i` elements of a value sequence.
pub open spec fn swf_list(items: Seq<SpecVal>, i: int) -> bool
    decreases items, i,
{
    if i <= 0 {
        true
    } else {
        swf_list(items, i - 1) && (
            if 0 <= i - 1 < items.len() {
                swf(items[i - 1])
            } else {
                true
            }
        )
    }
}

/// Well-formedness of the values of the first `i` members.
pub open spec fn swf_members(members: Seq<(Seq<char>, SpecVal)>, i: int) -> bool
    decreases members, i,
{
    if i <= 0 {
        true
    } else {
        swf_members(members, i - 1) && (
            if 0 <= i - 1 < members.len() {
                swf(members[i - 1].1)
            } else {
                true
            }
        )
    }
}

/// Every element of a well-formed prefix is itself well-formed.
pub proof fn lemma_swf_list_index(items: Seq<SpecVal>, n: int, k: int)
    requires
        swf_list(items, n),
        0 <= k < n,
    ensures
        k < items.len() ==> swf(items[k]),
    decreases n,
{
    if k < n - 1 {
        lemma_swf_list_index(items, n - 1, k);
    }
}

/// Every member value of a well-formed prefix is itself well-formed.
pub proof fn lemma_swf_members_index(members: Seq<(Seq<char>, SpecVal)>, n: int, k: int)
    requires
        swf_members(members, n),
        0 <= k < n,
    ensures
        k < members.len() ==> swf(members[k].1),
    decreases n,
{
    if k < n - 1 {
        lemma_swf_members_index(members, n - 1, k);
    }
}

/// Insertion into a key-sorted member sequence: a fresh key goes to its
/// sorted place, an existing key has its value replaced (last wins).
pub open spec fn obj_insert(
    ms: Seq<(Seq<char>, SpecVal)>,
    key: Seq<char>,
    v: SpecVal,
) -> Seq<(Seq<char>, SpecVal)>
    decreases ms.len(),
{
    if ms.len() == 0 {
        seq![(key, v)]
    } else if lex_lt(key, ms[0].0) {
        seq![(key, v)] + ms
    } else if key == ms[0].0 {
        seq![(key, v)] + ms.subrange(1, ms.len() as int)
    } else {
        seq![ms[0]] + obj_insert(ms.subrange(1, ms.len() as int), key, v)
    }
}

/// Representation of a JSON value.
#[derive(Debug, PartialEq, Eq)]
pub enum Value {
    Null,
    Boolean(bool),
    Number(Num),
    String(Vec<char>),
    Array(Vec<Value>),
    Object(Vec<(Vec<char>, Value)>),
}

/// Ghost contents of an array's element vector.
pub open spec fn arr_view(items: Vec<Value>) -> Seq<SpecVal>
    decreases items,
{
    Seq::new(
        items@.len(),
        |i: int|
            if 0 <= i < items@.len() {
                items[i]@
            } else {
                SpecVal::NullV
            },
    )
}

/// Ghost contents of an object's member vector.
pub open spec fn obj_view(members: Vec<(Vec<char>, Value)>) -> Seq<(Seq<char>, SpecVal)>
    decreases members,
{
    Seq::new(
        members@.len(),
        |i: int|
            if 0 <= i < members@.len() {
                (members[i].0@, members[i].1@)
            } else {
                (Seq::empty(), SpecVal::NullV)
            },
    )
}

impl View for Value {
    type V = SpecVal;

    open spec fn view(&self) -> SpecVal
        decreases self,
    {
        match self {
            Value::Null => SpecVal::NullV,
            Value::Boolean(b) => SpecVal::BoolV(*b),
            Value::Number(n) => SpecVal::NumV { neg: n.neg_spec(), digits: n.digits_spec(), exp: n.exp_spec() },
            Value::String(s) => SpecVal::StrV(s@),
            Value::Array(items) => SpecVal::ArrV(arr_view(*items)),
            Value::Object(members) => SpecVal::ObjV(obj_view(*members)),
        }
    }
}

/// Well-formedness of a prefix depends only on the elements in it.
pub proof fn lemma_swf_list_ext(a: Seq<SpecVal>, b: Seq<SpecVal>, n: int)
    requires
        forall|x: int| 0 <= x < n ==> a[x] == b[x],
        n <= a.len(),
        n <= b.len(),
    ensures
        swf_list(a, n) == swf_list(b, n),
    decreases n,
{
    if n > 0 {
        lemma_swf_list_ext(a, b, n - 1);
    }
}

/// Appending a well-formed element keeps a value list well-formed.
pub proof fn lemma_swf_list_snoc(items: Seq<SpecVal>, v: SpecVal)
    requires
        swf_list(items, items.len() as int),
        swf(v),
    ensures
        swf_list(items.push(v), items.len() as int + 1),
{
    let p = items.push(v);
    lemma_swf_list_ext(items, p, items.len() as int);
    assert(p[items.len() as int] == v);
}

/// A member prefix is well-formed exactly when each value in it is.
pub proof fn lemma_swf_members_build(ms: Seq<(Seq<char>, SpecVal)>, n: int)
    requires
        n <= ms.len(),
        forall|x: int| 0 <= x < n ==> swf(#[trigger] ms[x].1),
    ensures
        swf_members(ms, n),
    decreases n,
{
    if n > 0 {
        lemma_swf_members_build(ms, n - 1);
    }
}

/// The first key after an insertion is the inserted key or the old head key.
proof fn lemma_obj_insert_head(ms: Seq<(Seq<char>, SpecVal)>, key: Seq<char>, v: SpecVal)
    ensures
        obj_insert(ms, key, v).len() > 0,
        obj_insert(ms, key, v)[0].0 == key || (ms.len() > 0 && obj_insert(ms, key, v)[0].0
            == ms[0].0),
{
}

/// Sorted last-wins insertion keeps the member list sorted and its values
/// well-formed.
pub proof fn lemma_obj_insert_wf(ms: Seq<(Seq<char>, SpecVal)>, key: Seq<char>, v: SpecVal)
    requires
        obj_sorted(ms),
        swf_members(ms, ms.len() as int),
        swf(v),
    ensures
        obj_sorted(obj_insert(ms, key, v)),
        swf_members(obj_insert(ms, key, v), obj_insert(ms, key, v).len() as int),
    decreases ms.len(),
{
    let r = obj_insert(ms, key, v);
    if ms.len() == 0 {
        assert(obj_sorted(r)) by {
            assert(r.len() == 1);
        }
        lemma_swf_members_build(r, 1);
    } else if lex_lt(key, ms[0].0) {
        assert(r =~= seq![(key, v)] + ms);
        assert(obj_sorted(r)) by {
            assert forall|i: int| 0 <= i < r.len() - 1 implies lex_lt(
                #[trigger] r[i].0,
                r[i + 1].0,
            ) by {
                if i > 0 {
                    assert(r[i] == ms[i - 1]);
                    assert(r[i + 1] == ms[i]);
                    assert(lex_lt(ms[i - 1].0, ms[i].0));
                }
            }
        }
        assert forall|x: int| 0 <= x < r.len() implies swf(#[trigger] r[x].1) by {
            if x > 0 {
                lemma_swf_members_index(ms, ms.len() as int, x - 1);
            }
        }
        lemma_swf_members_build(r, r.len() as int);
    } else if key == ms[0].0 {
        assert(r =~= seq![(key, v)] + ms.subrange(1, ms.len() as int));
        let tail = ms.subrange(1, ms.len() as int);
        assert(obj_sorted(r)) by {
            assert forall|i: int| 0 <= i < r.len() - 1 implies lex_lt(
                #[trigger] r[i].0,
                r[i + 1].0,
            ) by {
                if i == 0 {
                    assert(lex_lt(ms[0].0, ms[1].0));
                    assert(r[1] == ms[1]);
                } else {
                    assert(r[i] == ms[i]);
                    assert(r[i + 1] == ms[i + 1]);
                    assert(lex_lt(ms[i].0, ms[i + 1].0));
                }
            }
        }
        assert forall|x: int| 0 <= x < r.len() implies swf(#[trigger] r[x].1) by {
            if x > 0 {
                lemma_swf_members_index(ms, ms.len() as int, x);
            }
        }
        lemma_swf_members_build(r, r.len() as int);
    } else {
        let tail = ms.subrange(1, ms.len() as int);
        assert(obj_sorted(tail)) by {
            assert forall|i: int| 0 <= i < tail.len() - 1 implies lex_lt(
                #[trigger] tail[i].0,
                tail[i + 1].0,
            ) by {
                assert(tail[i] == ms[i + 1]);
                assert(tail[i + 1] == ms[i + 2]);
                assert(lex_lt(ms[i + 1].0, ms[i + 2].0));
            }
        }
        assert(swf_members(tail, tail.len() as int)) by {
            assert forall|x: int| 0 <= x < tail.len() implies swf(#[trigger] tail[x].1) by {
                lemma_swf_members_index(ms, ms.len() as int, x + 1);
            }
            lemma_swf_members_build(tail, tail.len() as int);
        }
        lemma_obj_insert_wf(tail, key, v);
        let rt = obj_insert(tail, key, v);
        assert(r =~= seq![ms[0]] + rt);
        assert(lex_lt(ms[0].0, key)) by {
            lemma_lex_total(key, ms[0].0);
        }
        assert(obj_sorted(r)) by {
            assert forall|i: int| 0 <= i < r.len() - 1 implies lex_lt(
                #[trigger] r[i].0,
                r[i + 1].0,
            ) by {
                if i == 0 {
                    lemma_obj_insert_head(tail, key, v);
                    assert(r[1] == rt[0]);
                    if rt[0].0 == key {
                    } else {
                        assert(rt[0].0 == tail[0].0);
                        assert(tail[0] == ms[1]);
                        assert(lex_lt(ms[0].0, ms[1].0));
                    }
                } else {
                    assert(r[i] == rt[i - 1]);
                    assert(r[i + 1] == rt[i]);
                    assert(lex_lt(rt[i - 1].0, rt[i].0));
                }
            }
        }
        assert forall|x: int| 0 <= x < r.len() implies swf(#[trigger] r[x].1) by {
            if x == 0 {
                lemma_swf_members_index(ms, ms.len() as int, 0);
            } else {
                lemma_swf_members_index(rt, rt.len() as int, x - 1);
            }
        }
        lemma_swf_members_build(r, r.len() as int);
    }
}

/// Two distinct sequences are ordered one way or the other.
pub proof fn lemma_lex_total(a: Seq<char>, b: Seq<char>)
    ensures
        lex_lt(a, b) || lex_lt(b, a) || a == b,
    decreases a.len(),
{
    if a.len() > 0 && b.len() > 0 && a[0] == b[0] {
        let at = a.subrange(1, a.len() as int);
        let bt = b.subrange(1, b.len() as int);
        lemma_lex_total(at, bt);
        if !lex_lt(a, b) && !lex_lt(b, a) {
            assert(at == bt);
            assert forall|x: int| 0 <= x < a.len() implies a[x] == b[x] by {
                if x > 0 {
                    assert(a[x] == at[x - 1]);
                    assert(b[x] == bt[x - 1]);
                }
            }
            assert(a =~= b);
        }
    }
}

} // verus!
