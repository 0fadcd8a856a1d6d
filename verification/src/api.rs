//! Inspection, construction and mutation of value trees.
//!
//! Array editing is index-based with shift semantics; object editing
//! follows the duplicate-key policy of the model: lookup goes to the
//! last inserted match, insert-or-update replaces that entry in place,
//! and removal by key deletes the first match.

use vstd::prelude::*;
use vstd::pervasive::unreached;
use vstd::pervasive::VecAdditionalExecFns;
use crate::convert::{chars_to_string, str_to_chars};
use crate::errors::ErrorKind;
use crate::model::{
    num_lexeme_ok, obj_contains, obj_lookup, obj_remove_first, obj_upsert, scan_number,
    lemma_obj_lookup_at, lemma_obj_lookup_none, lemma_obj_lookup_some, lemma_obj_remove_at,
    lemma_obj_remove_none, lemma_obj_upsert_at, JsonModel, NumScan,
};
use crate::value::{
    lemma_members_model_index, lemma_members_model_push, lemma_values_model_index,
    lemma_values_model_push, members_model, value_model, values_model, Member, Value,
};

verus! {

/// Whether two character vectors hold the same characters.
pub fn chars_eq(a: &Vec<char>, b: &Vec<char>) -> (r: bool)
    ensures
        r == (a@ == b@),
{
    if a.len() != b.len() {
        return false;
    }
    let n = a.len();
    let mut k: usize = 0;
    while k < n
        invariant
            k <= n,
            n == a@.len(),
            n == b@.len(),
            forall|j: int| 0 <= j < k ==> a@[j] == b@[j],
        decreases n - k,
    {
        if a[k] != b[k] {
            return false;
        }
        k = k + 1;
    }
    proof {
        assert(a@ =~= b@);
    }
    true
}

impl Value {
    /// A string node holding the characters of `s`.
    pub fn text_from(s: &str) -> (r: Value)
        ensures
            r@ == JsonModel::Str(s@),
    {
        Value::Text(str_to_chars(s))
    }

    /// A number node holding the lexeme `s`, accepted exactly when the
    /// whole of `s` is a legal JSON number within double range.
    pub fn number_from(s: &str) -> (r: Result<Value, ErrorKind>)
        ensures
            (match scan_number(s@, 0) {
                NumScan::Done { end } => if end == s@.len() {
                    r matches Ok(v) && v@ == JsonModel::Num(s@)
                } else {
                    r == Err::<Value, ErrorKind>(ErrorKind::InvalidValue)
                },
                NumScan::Bad { kind, at } => r == Err::<Value, ErrorKind>(kind),
            }),
            r is Ok <==> num_lexeme_ok(s@),
    {
        let chars = str_to_chars(s);
        let mut c = crate::cursor::LeptContext { chars, ptr: 0, stack: Vec::new() };
        match crate::parser::parse_number(&mut c) {
            Ok(lx) => {
                if c.hasnext() {
                    Err(ErrorKind::InvalidValue)
                } else {
                    proof {
                        assert(lx@ =~= s@);
                    }
                    Ok(Value::Number(lx))
                }
            },
            Err(e) => Err(e.kind),
        }
    }

    /// How many elements or members this array or object holds.
    pub fn length(&self) -> (r: usize)
        requires
            self@ is Arr || self@ is Obj,
        ensures
            self@ matches JsonModel::Arr(es) ==> r == es.len(),
            self@ matches JsonModel::Obj(ms) ==> r == ms.len(),
    {
        match self {
            Value::Array(a) => {
                proof {
                    lemma_values_model_index(a@);
                }
                a.len()
            },
            Value::Object(ms) => {
                proof {
                    lemma_members_model_index(ms@);
                }
                ms.len()
            },
            _ => unreached(),
        }
    }

    /// The element at index `i` of this array, bounds-checked.
    pub fn get(&self, i: usize) -> (r: Result<&Value, ErrorKind>)
        requires
            self@ is Arr,
        ensures
            (match self@ {
                JsonModel::Arr(es) => if i < es.len() {
                    r matches Ok(v) && v@ == es[i as int]
                } else {
                    r matches Err(e) && e == ErrorKind::IndexOutOfRange
                },
                _ => false,
            }),
    {
        match self {
            Value::Array(a) => {
                proof {
                    lemma_values_model_index(a@);
                }
                if i < a.len() {
                    Ok(&a[i])
                } else {
                    Err(ErrorKind::IndexOutOfRange)
                }
            },
            _ => unreached(),
        }
    }

    /// Replaces the element at index `i` of this array, bounds-checked.
    pub fn set(&mut self, i: usize, val: Value) -> (r: Result<(), ErrorKind>)
        requires
            old(self)@ is Arr,
        ensures
            (match old(self)@ {
                JsonModel::Arr(es) => if i < es.len() {
                    r matches Ok(u) && final(self)@ == JsonModel::Arr(es.update(i as int, val@))
                } else {
                    r matches Err(e) && e == ErrorKind::IndexOutOfRange && final(self)@ == old(
                        self,
                    )@
                },
                _ => false,
            }),
    {
        match self {
            Value::Array(a) => {
                proof {
                    lemma_values_model_index(a@);
                }
                if i < a.len() {
                    let ghost eb = a@;
                    a.set(i, val);
                    proof {
                        lemma_values_model_index(a@);
                        assert(values_model(a@, 0) =~= values_model(eb, 0).update(
                            i as int,
                            value_model(val),
                        ));
                    }
                    Ok(())
                } else {
                    Err(ErrorKind::IndexOutOfRange)
                }
            },
            _ => unreached(),
        }
    }

    /// Appends an element to this array, taking ownership of it.
    pub fn append(&mut self, val: Value)
        requires
            old(self)@ is Arr,
        ensures
            (match old(self)@ {
                JsonModel::Arr(es) => final(self)@ == JsonModel::Arr(es.push(val@)),
                _ => false,
            }),
    {
        match self {
            Value::Array(a) => {
                let ghost eb = a@;
                a.push(val);
                proof {
                    lemma_values_model_push(eb, a@.last(), 0);
                }
            },
            _ => unreached(),
        }
    }

    /// Inserts an element at index `i` of this array, shifting what
    /// follows; `i` may equal the length.
    pub fn insert(&mut self, i: usize, val: Value) -> (r: Result<(), ErrorKind>)
        requires
            old(self)@ is Arr,
        ensures
            (match old(self)@ {
                JsonModel::Arr(es) => if i <= es.len() {
                    r matches Ok(u) && final(self)@ == JsonModel::Arr(es.insert(i as int, val@))
                } else {
                    r matches Err(e) && e == ErrorKind::IndexOutOfRange && final(self)@ == old(
                        self,
                    )@
                },
                _ => false,
            }),
    {
        match self {
            Value::Array(a) => {
                proof {
                    lemma_values_model_index(a@);
                }
                if i <= a.len() {
                    let ghost eb = a@;
                    a.insert(i, val);
                    proof {
                        lemma_values_model_index(a@);
                        assert(values_model(a@, 0) =~= values_model(eb, 0).insert(
                            i as int,
                            value_model(val),
                        ));
                    }
                    Ok(())
                } else {
                    Err(ErrorKind::IndexOutOfRange)
                }
            },
            _ => unreached(),
        }
    }

    /// Removes and returns the element at index `i` of this array,
    /// shifting what follows, bounds-checked.
    pub fn remove(&mut self, i: usize) -> (r: Result<Value, ErrorKind>)
        requires
            old(self)@ is Arr,
        ensures
            (match old(self)@ {
                JsonModel::Arr(es) => if i < es.len() {
                    r matches Ok(v) && v@ == es[i as int] && final(self)@ == JsonModel::Arr(
                        es.remove(i as int),
                    )
                } else {
                    r matches Err(e) && e == ErrorKind::IndexOutOfRange && final(self)@ == old(
                        self,
                    )@
                },
                _ => false,
            }),
    {
        match self {
            Value::Array(a) => {
                proof {
                    lemma_values_model_index(a@);
                }
                if i < a.len() {
                    let ghost eb = a@;
                    let v = a.remove(i);
                    proof {
                        lemma_values_model_index(a@);
                        assert(values_model(a@, 0) =~= values_model(eb, 0).remove(i as int));
                    }
                    Ok(v)
                } else {
                    Err(ErrorKind::IndexOutOfRange)
                }
            },
            _ => unreached(),
        }
    }

    /// The keys of this object, in insertion order, duplicates kept.
    pub fn keys(&self) -> (r: Vec<String>)
        requires
            self@ is Obj,
        ensures
            (match self@ {
                JsonModel::Obj(ms) => r@.len() == ms.len() && (forall|k: int|
                    0 <= k < ms.len() ==> r@[k]@ == ms[k].0),
                _ => false,
            }),
    {
        match self {
            Value::Object(ms) => {
                proof {
                    lemma_members_model_index(ms@);
                }
                let n = ms.len();
                let mut r: Vec<String> = Vec::new();
                let mut k: usize = 0;
                while k < n
                    invariant
                        k <= n,
                        n == ms@.len(),
                        r@.len() == k,
                        forall|j: int| 0 <= j < k ==> r@[j]@ == ms@[j].key@,
                    decreases n - k,
                {
                    r.push(chars_to_string(&ms[k].key));
                    k = k + 1;
                }
                r
            },
            _ => unreached(),
        }
    }

    /// The index of the last member whose key holds the characters of
    /// `kc`, if any.
    fn find_last(&self, kc: &Vec<char>) -> (r: Option<usize>)
        requires
            self@ is Obj,
        ensures
            (match self@ {
                JsonModel::Obj(ms) => (match r {
                    Some(i) => i < ms.len() && ms[i as int].0 == kc@ && (forall|j: int|
                        i < j < ms.len() ==> ms[j].0 != kc@),
                    None => forall|j: int| 0 <= j < ms.len() ==> ms[j].0 != kc@,
                }),
                _ => false,
            }),
    {
        match self {
            Value::Object(ms) => {
                proof {
                    lemma_members_model_index(ms@);
                }
                let ghost msm = members_model(ms@, 0);
                let mut i = ms.len();
                while i > 0
                    invariant
                        i <= ms@.len(),
                        msm == members_model(ms@, 0),
                        msm.len() == ms@.len(),
                        self@ == JsonModel::Obj(msm),
                        forall|j: int| i <= j < msm.len() ==> msm[j].0 != kc@,
                        forall|j: int|
                            0 <= j < msm.len() ==> #[trigger] msm[j] == (
                            ms@[j].key@,
                            value_model(ms@[j].value),
                            ),
                    decreases i,
                {
                    i = i - 1;
                    if chars_eq(&ms[i].key, kc) {
                        return Some(i);
                    }
                }
                None
            },
            _ => unreached(),
        }
    }

    /// The index of the first member whose key holds the characters of
    /// `kc`, if any.
    fn find_first(&self, kc: &Vec<char>) -> (r: Option<usize>)
        requires
            self@ is Obj,
        ensures
            (match self@ {
                JsonModel::Obj(ms) => (match r {
                    Some(i) => i < ms.len() && ms[i as int].0 == kc@ && (forall|j: int|
                        0 <= j < i ==> ms[j].0 != kc@),
                    None => forall|j: int| 0 <= j < ms.len() ==> ms[j].0 != kc@,
                }),
                _ => false,
            }),
    {
        match self {
            Value::Object(ms) => {
                proof {
                    lemma_members_model_index(ms@);
                }
                let ghost msm = members_model(ms@, 0);
                let n = ms.len();
                let mut i: usize = 0;
                while i < n
                    invariant
                        i <= n,
                        n == ms@.len(),
                        msm == members_model(ms@, 0),
                        msm.len() == ms@.len(),
                        self@ == JsonModel::Obj(msm),
                        forall|j: int| 0 <= j < i ==> msm[j].0 != kc@,
                        forall|j: int|
                            0 <= j < msm.len() ==> #[trigger] msm[j] == (
                            ms@[j].key@,
                            value_model(ms@[j].value),
                            ),
                    decreases n - i,
                {
                    if chars_eq(&ms[i].key, kc) {
                        return Some(i);
                    }
                    i = i + 1;
                }
                None
            },
            _ => unreached(),
        }
    }

    /// The value of the last member of this object whose key is `key`,
    /// if any.
    pub fn get_key(&self, key: &str) -> (r: Option<&Value>)
        requires
            self@ is Obj,
        ensures
            (match self@ {
                JsonModel::Obj(ms) => (match obj_lookup(ms, key@) {
                    Some(v) => r matches Some(rv) && rv@ == v,
                    None => r is None,
                }),
                _ => false,
            }),
    {
        let kc = str_to_chars(key);
        let idx = self.find_last(&kc);
        match self {
            Value::Object(ms) => {
                proof {
                    lemma_members_model_index(ms@);
                }
                match idx {
                    Some(i) => {
                        proof {
                            lemma_obj_lookup_at(members_model(ms@, 0), key@, i as int);
                        }
                        Some(&ms[i].value)
                    },
                    None => {
                        proof {
                            lemma_obj_lookup_none(members_model(ms@, 0), key@);
                        }
                        None
                    },
                }
            },
            _ => unreached(),
        }
    }

    /// Whether this object has a member whose key is `key`.
    pub fn contains(&self, key: &str) -> (r: bool)
        requires
            self@ is Obj,
        ensures
            (match self@ {
                JsonModel::Obj(ms) => r == obj_contains(ms, key@),
                _ => false,
            }),
    {
        match self.get_key(key) {
            Some(_) => true,
            None => false,
        }
    }

    /// Gives `key` the value `val` in this object: the last member with
    /// that key takes the value in place; with no such member the pair
    /// is appended.
    pub fn insert_or_update(&mut self, key: &str, val: Value)
        requires
            old(self)@ is Obj,
        ensures
            (match old(self)@ {
                JsonModel::Obj(ms) => final(self)@ == JsonModel::Obj(
                    obj_upsert(ms, key@, val@),
                ),
                _ => false,
            }),
    {
        let kc = str_to_chars(key);
        let ghost vm = value_model(val);
        let idx = self.find_last(&kc);
        match self {
            Value::Object(ms) => {
                let ghost msm = members_model(ms@, 0);
                proof {
                    lemma_members_model_index(ms@);
                }
                match idx {
                    Some(i) => {
                        proof {
                            lemma_obj_lookup_at(msm, key@, i as int);
                            lemma_obj_upsert_at(msm, key@, vm, i as int);
                        }
                        ms.set(i, Member { key: kc, value: val });
                        proof {
                            lemma_members_model_index(ms@);
                            assert(members_model(ms@, 0) =~= msm.update(i as int, (key@, vm)));
                        }
                    },
                    None => {
                        proof {
                            lemma_obj_lookup_none(msm, key@);
                        }
                        let m = Member { key: kc, value: val };
                        proof {
                            lemma_members_model_push(ms@, m, 0);
                        }
                        ms.push(m);
                    },
                }
            },
            _ => unreached(),
        }
    }

    /// Deletes the first member of this object whose key is `key`, if
    /// any; reports whether a removal occurred.
    pub fn remove_key(&mut self, key: &str) -> (r: bool)
        requires
            old(self)@ is Obj,
        ensures
            (match old(self)@ {
                JsonModel::Obj(ms) => final(self)@ == JsonModel::Obj(
                    obj_remove_first(ms, key@),
                ) && r == obj_contains(ms, key@),
                _ => false,
            }),
    {
        let kc = str_to_chars(key);
        let idx = self.find_first(&kc);
        match self {
            Value::Object(ms) => {
                let ghost msm = members_model(ms@, 0);
                proof {
                    lemma_members_model_index(ms@);
                }
                match idx {
                    Some(i) => {
                        proof {
                            lemma_obj_lookup_some(msm, key@, i as int);
                            lemma_obj_remove_at(msm, key@, i as int);
                        }
                        let _ = ms.remove(i);
                        proof {
                            lemma_members_model_index(ms@);
                            assert(members_model(ms@, 0) =~= msm.remove(i as int));
                        }
                        true
                    },
                    None => {
                        proof {
                            lemma_obj_lookup_none(msm, key@);
                            lemma_obj_remove_none(msm, key@);
                        }
                        false
                    },
                }
            },
            _ => unreached(),
        }
    }
}

/// Whether two element vectors carry equal model sequences.
fn values_eq(a: &Vec<Value>, b: &Vec<Value>) -> (r: bool)
    ensures
        r == (values_model(a@, 0) == values_model(b@, 0)),
    decreases a@, 1int,
{
    proof {
        lemma_values_model_index(a@);
        lemma_values_model_index(b@);
    }
    if a.len() != b.len() {
        return false;
    }
    let n = a.len();
    let mut k: usize = 0;
    while k < n
        invariant
            k <= n,
            n == a@.len(),
            n == b@.len(),
            forall|j: int| 0 <= j < k ==> value_model(a@[j]) == value_model(b@[j]),
        decreases n - k,
    {
        if !a[k].deep_eq(&b[k]) {
            proof {
                lemma_values_model_index(a@);
                lemma_values_model_index(b@);
                assert(values_model(a@, 0)[k as int] == value_model(a@[k as int]));
                assert(values_model(b@, 0)[k as int] == value_model(b@[k as int]));
            }
            return false;
        }
        k = k + 1;
    }
    proof {
        lemma_values_model_index(a@);
        lemma_values_model_index(b@);
        assert(values_model(a@, 0) =~= values_model(b@, 0));
    }
    true
}

/// Whether two member vectors carry equal model sequences.
fn members_eq(a: &Vec<Member>, b: &Vec<Member>) -> (r: bool)
    ensures
        r == (members_model(a@, 0) == members_model(b@, 0)),
    decreases a@, 1int,
{
    proof {
        lemma_members_model_index(a@);
        lemma_members_model_index(b@);
    }
    if a.len() != b.len() {
        return false;
    }
    let n = a.len();
    let mut k: usize = 0;
    while k < n
        invariant
            k <= n,
            n == a@.len(),
            n == b@.len(),
            forall|j: int|
                0 <= j < k ==> a@[j].key@ == b@[j].key@ && value_model(a@[j].value)
                    == value_model(b@[j].value),
        decreases n - k,
    {
        if !chars_eq(&a[k].key, &b[k].key) {
            proof {
                lemma_members_model_index(a@);
                lemma_members_model_index(b@);
                assert(members_model(a@, 0)[k as int] == (a@[k as int].key@, value_model(
                    a@[k as int].value,
                )));
                assert(members_model(b@, 0)[k as int] == (b@[k as int].key@, value_model(
                    b@[k as int].value,
                )));
            }
            return false;
        }
        if !a[k].value.deep_eq(&b[k].value) {
            proof {
                lemma_members_model_index(a@);
                lemma_members_model_index(b@);
                assert(members_model(a@, 0)[k as int] == (a@[k as int].key@, value_model(
                    a@[k as int].value,
                )));
                assert(members_model(b@, 0)[k as int] == (b@[k as int].key@, value_model(
                    b@[k as int].value,
                )));
            }
            return false;
        }
        k = k + 1;
    }
    proof {
        lemma_members_model_index(a@);
        lemma_members_model_index(b@);
        assert(members_model(a@, 0) =~= members_model(b@, 0));
    }
    true
}

impl Value {
    /// Whether two trees are structurally equal: same variants, same
    /// texts and lexemes, same elements and members in the same order.
    pub fn deep_eq(&self, other: &Value) -> (r: bool)
        ensures
            r == (self@ == other@),
        decreases *self, 0int,
    {
        match (self, other) {
            (Value::Null, Value::Null) => true,
            (Value::Bool(x), Value::Bool(y)) => x == y,
            (Value::Number(x), Value::Number(y)) => chars_eq(x, y),
            (Value::Text(x), Value::Text(y)) => chars_eq(x, y),
            (Value::Array(x), Value::Array(y)) => values_eq(x, y),
            (Value::Object(x), Value::Object(y)) => members_eq(x, y),
            _ => false,
        }
    }
}

} // verus!
