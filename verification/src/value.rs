//! The executable value tree.
//!
//! [`Value`] is the tagged-union DOM node.  Text — string content, object
//! keys, number lexemes — is held as a vector of characters, so that the
//! whole tree is made of plain values the verifier can reason about.  The
//! view of a `Value` is the abstract [`JsonModel`] tree.

use vstd::prelude::*;
use crate::model::JsonModel;

verus! {

/// One object member: a key and the value it maps to.
#[derive(Debug)]
pub struct Member {
    pub key: Vec<char>,
    pub value: Value,
}

/// The tagged-union DOM node.
///
/// A `Number` holds the decimal lexeme accepted by the number production;
/// a `Text` holds decoded string content, escapes already resolved.
/// Arrays and objects own their children; object members keep insertion
/// order and keys may repeat.
#[derive(Debug)]
pub enum Value {
    Null,
    Bool(bool),
    Number(Vec<char>),
    Text(Vec<char>),
    Array(Vec<Value>),
    Object(Vec<Member>),
}

/// The variant tag of a [`Value`], for O(1) dispatch.
#[derive(Clone, Copy, Debug, PartialEq, Eq, Structural)]
pub enum ValueKind {
    Null,
    Bool,
    Number,
    Text,
    Array,
    Object,
}

/// The abstract tree a [`Value`] stands for.
pub open spec fn value_model(v: Value) -> JsonModel
    decreases v, 0int,
{
    match v {
        Value::Null => JsonModel::Null,
        Value::Bool(b) => JsonModel::Bool(b),
        Value::Number(lx) => JsonModel::Num(lx@),
        Value::Text(s) => JsonModel::Str(s@),
        Value::Array(a) => JsonModel::Arr(values_model(a@, 0)),
        Value::Object(ms) => JsonModel::Obj(members_model(ms@, 0)),
    }
}

/// The models of the elements of `vs` from index `i` on, in order.
pub open spec fn values_model(vs: Seq<Value>, i: int) -> Seq<JsonModel>
    decreases vs, vs.len() - i,
{
    if 0 <= i < vs.len() {
        seq![value_model(vs[i])] + values_model(vs, i + 1)
    } else {
        Seq::empty()
    }
}

/// The models of the members of `ms` from index `i` on, in order.
pub open spec fn members_model(ms: Seq<Member>, i: int) -> Seq<(Seq<char>, JsonModel)>
    decreases ms, ms.len() - i,
{
    if 0 <= i < ms.len() {
        seq![(ms[i].key@, value_model(ms[i].value))] + members_model(ms, i + 1)
    } else {
        Seq::empty()
    }
}

/// How `values_model` reads element by element.
pub proof fn lemma_values_model(vs: Seq<Value>, i: int)
    requires
        0 <= i <= vs.len(),
    ensures
        values_model(vs, i).len() == vs.len() - i,
        forall|k: int|
            i <= k < vs.len() ==> values_model(vs, i)[k - i] == value_model(vs[k]),
    decreases vs.len() - i,
{
    if i < vs.len() {
        lemma_values_model(vs, i + 1);
    }
}

/// Appending a value appends its model.
pub proof fn lemma_values_model_push(vs: Seq<Value>, v: Value, i: int)
    requires
        0 <= i <= vs.len(),
    ensures
        values_model(vs.push(v), i) == values_model(vs, i).push(value_model(v)),
    decreases vs.len() - i,
{
    let ws = vs.push(v);
    if i < vs.len() {
        lemma_values_model_push(vs, v, i + 1);
        assert(ws[i] == vs[i]);
        assert(seq![value_model(vs[i])] + values_model(vs, i + 1).push(value_model(v)) =~= (
        seq![value_model(vs[i])] + values_model(vs, i + 1)).push(value_model(v)));
    } else {
        assert(ws[i] == v);
        assert(values_model(ws, i + 1) =~= Seq::<JsonModel>::empty());
        assert(seq![value_model(v)] + Seq::<JsonModel>::empty() =~= Seq::<
        JsonModel,
        >::empty().push(value_model(v)));
    }
}

/// Appending a member appends its model.
pub proof fn lemma_members_model_push(ms: Seq<Member>, m: Member, i: int)
    requires
        0 <= i <= ms.len(),
    ensures
        members_model(ms.push(m), i) == members_model(ms, i).push(
            (m.key@, value_model(m.value)),
        ),
    decreases ms.len() - i,
{
    let ws = ms.push(m);
    let mm = (m.key@, value_model(m.value));
    if i < ms.len() {
        lemma_members_model_push(ms, m, i + 1);
        assert(ws[i] == ms[i]);
        assert(seq![(ms[i].key@, value_model(ms[i].value))] + members_model(ms, i + 1).push(mm)
            =~= (seq![(ms[i].key@, value_model(ms[i].value))] + members_model(ms, i + 1)).push(
            mm,
        ));
    } else {
        assert(ws[i] == m);
        assert(members_model(ws, i + 1) =~= Seq::<(Seq<char>, JsonModel)>::empty());
        assert(seq![mm] + Seq::<(Seq<char>, JsonModel)>::empty() =~= Seq::<
        (Seq<char>, JsonModel),
        >::empty().push(mm));
    }
}

/// How `members_model` reads member by member.
pub proof fn lemma_members_model(ms: Seq<Member>, i: int)
    requires
        0 <= i <= ms.len(),
    ensures
        members_model(ms, i).len() == ms.len() - i,
        forall|k: int|
            i <= k < ms.len() ==> members_model(ms, i)[k - i] == (
            ms[k].key@,
            value_model(ms[k].value),
            ),
    decreases ms.len() - i,
{
    if i < ms.len() {
        lemma_members_model(ms, i + 1);
    }
}

impl View for Value {
    type V = JsonModel;

    open spec fn view(&self) -> JsonModel {
        value_model(*self)
    }
}

impl Value {
    /// The variant tag of this node.
    pub fn kind(&self) -> (r: ValueKind)
        ensures
            r == (match self@ {
                JsonModel::Null => ValueKind::Null,
                JsonModel::Bool(_) => ValueKind::Bool,
                JsonModel::Num(_) => ValueKind::Number,
                JsonModel::Str(_) => ValueKind::Text,
                JsonModel::Arr(_) => ValueKind::Array,
                JsonModel::Obj(_) => ValueKind::Object,
            }),
    {
        match self {
            Value::Null => ValueKind::Null,
            Value::Bool(_) => ValueKind::Bool,
            Value::Number(_) => ValueKind::Number,
            Value::Text(_) => ValueKind::Text,
            Value::Array(_) => ValueKind::Array,
            Value::Object(_) => ValueKind::Object,
        }
    }
}

/// `values_model` from the start, read pointwise.
pub proof fn lemma_values_model_index(vs: Seq<Value>)
    ensures
        values_model(vs, 0).len() == vs.len(),
        forall|k: int| 0 <= k < vs.len() ==> values_model(vs, 0)[k] == value_model(vs[k]),
{
    lemma_values_model(vs, 0);
    assert forall|k: int| 0 <= k < vs.len() implies values_model(vs, 0)[k] == value_model(
        vs[k],
    ) by {
        assert(values_model(vs, 0)[k - 0] == value_model(vs[k]));
    }
}

/// `members_model` from the start, read pointwise.
pub proof fn lemma_members_model_index(ms: Seq<Member>)
    ensures
        members_model(ms, 0).len() == ms.len(),
        forall|k: int|
            0 <= k < ms.len() ==> members_model(ms, 0)[k] == (
            ms[k].key@,
            value_model(ms[k].value),
            ),
{
    lemma_members_model(ms, 0);
    assert forall|k: int| 0 <= k < ms.len() implies members_model(ms, 0)[k] == (
    ms[k].key@,
    value_model(ms[k].value),
    ) by {
        assert(members_model(ms, 0)[k - 0] == (ms[k].key@, value_model(ms[k].value)));
    }
}

} // verus!
