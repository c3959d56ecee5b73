//! Keyed records and dotted-path access: looking a field up by key, setting a
//! field, and walking a chain of keys down a nested record, creating empty
//! intermediate records where the chain runs past the existing structure.

use vstd::prelude::*;

use crate::errors::EngineError;
use crate::value::{fields_model, lemma_fields_model, ValModel, Value};

verus! {

broadcast use lemma_fields_model;

/// The position of the first field whose key is `k`, or `-1` when no field
/// carries that key.
pub open spec fn key_index(fields: Seq<(Seq<char>, ValModel)>, k: Seq<char>) -> int
    decreases fields.len(),
{
    if fields.len() == 0 {
        -1
    } else if fields[0].0 == k {
        0
    } else {
        let rest = key_index(fields.drop_first(), k);
        if rest < 0 {
            -1
        } else {
            rest + 1
        }
    }
}

/// `key_index` finds exactly the first occurrence of the key.
pub broadcast proof fn lemma_key_index(fields: Seq<(Seq<char>, ValModel)>, k: Seq<char>)
    ensures
        #[trigger] key_index(fields, k) < 0 ==> forall|j: int|
            0 <= j < fields.len() ==> (#[trigger] fields[j]).0 != k,
        key_index(fields, k) >= 0 ==> {
            &&& key_index(fields, k) < fields.len()
            &&& fields[key_index(fields, k)].0 == k
            &&& forall|j: int| 0 <= j < key_index(fields, k) ==> (#[trigger] fields[j]).0 != k
        },
    decreases fields.len(),
{
    if fields.len() > 0 {
        lemma_key_index(fields.drop_first(), k);
        let rest = key_index(fields.drop_first(), k);
        if fields[0].0 == k {
        } else if rest < 0 {
            assert forall|j: int| 0 <= j < fields.len() implies (#[trigger] fields[j]).0
                != k by {
                if j > 0 {
                    assert(fields.drop_first()[j - 1] == fields[j]);
                    assert(fields.drop_first()[j - 1].0 != k);
                }
            }
        } else {
            assert(fields.drop_first()[rest] == fields[rest + 1]);
            assert(fields[rest + 1].0 == k);
            assert forall|j: int| 0 <= j < rest + 1 implies (#[trigger] fields[j]).0 != k by {
                if j > 0 {
                    assert(fields.drop_first()[j - 1] == fields[j]);
                    assert(fields.drop_first()[j - 1].0 != k);
                }
            }
        }
    }
}

/// The value of the first field keyed `k`, if any.
pub open spec fn record_get(fields: Seq<(Seq<char>, ValModel)>, k: Seq<char>) -> Option<
    ValModel,
> {
    if key_index(fields, k) < 0 {
        None
    } else {
        Some(fields[key_index(fields, k)].1)
    }
}

/// The fields after setting key `k` to `v`: the first field keyed `k` is
/// replaced in place, or a new field is appended when the key is absent.
pub open spec fn record_set(
    fields: Seq<(Seq<char>, ValModel)>,
    k: Seq<char>,
    v: ValModel,
) -> Seq<(Seq<char>, ValModel)> {
    if key_index(fields, k) < 0 {
        fields.push((k, v))
    } else {
        fields.update(key_index(fields, k), (k, v))
    }
}

/// Finds the position of the first field of `fields` whose key equals `key`.
pub fn find_key(fields: &Vec<(String, Value)>, key: &String) -> (r: Option<usize>)
    ensures
        match r {
            Some(p) => {
                &&& p < fields@.len()
                &&& fields@[p as int].0@ == key@
                &&& forall|j: int| 0 <= j < p ==> (#[trigger] fields@[j]).0@ != key@
                &&& key_index(fields_model(fields@), key@) == p
            },
            None => {
                &&& forall|j: int| 0 <= j < fields@.len() ==> (#[trigger] fields@[j]).0@ != key@
                &&& key_index(fields_model(fields@), key@) < 0
            },
        },
{
    broadcast use lemma_key_index;

    let mut pos: usize = 0;
    let mut found = false;
    while pos < fields.len() && !found
        invariant
            pos <= fields@.len(),
            !found ==> forall|j: int| 0 <= j < pos ==> (#[trigger] fields@[j]).0@ != key@,
            found ==> pos < fields@.len() && fields@[pos as int].0@ == key@ && forall|j: int|
                0 <= j < pos ==> (#[trigger] fields@[j]).0@ != key@,
        decreases fields@.len() - pos + (if found { 0int } else { 1int }),
    {
        if fields[pos].0 == *key {
            found = true;
        } else {
            pos = pos + 1;
        }
    }
    if found {
        proof {
            let fm = fields_model(fields@);
            let ki = key_index(fm, key@);
            assert(fm[pos as int].0 == key@);
            assert(ki >= 0);
            assert(ki <= pos) by {
                if ki > pos {
                    assert(fm[pos as int].0 != key@);
                }
            }
            assert(ki >= pos) by {
                if ki < pos {
                    assert(fields@[ki].0@ != key@);
                    assert(fm[ki].0 != key@);
                }
            }
        }
        Some(pos)
    } else {
        proof {
            let fm = fields_model(fields@);
            let ki = key_index(fm, key@);
            if ki >= 0 {
                assert(fm[ki].0 == key@);
                assert(fields@[ki].0@ != key@);
            }
        }
        None
    }
}

impl Value {
    /// A record with no fields.
    pub fn empty_record() -> (r: Value)
        ensures
            r.model() == ValModel::Record(Seq::<(Seq<char>, ValModel)>::empty()),
    {
        let fields: Vec<(String, Value)> = Vec::new();
        proof {
            assert(fields_model(fields@) =~= Seq::<(Seq<char>, ValModel)>::empty());
        }
        Value::Record(fields)
    }

    /// A borrowed look-up of the first field keyed `key`; `None` when the
    /// value is not a record or the key is absent.
    pub fn record_field<'a>(&'a self, key: &String) -> (r: Option<&'a Value>)
        ensures
            match r {
                Some(v) => self.model() matches ValModel::Record(fs) && record_get(fs, key@)
                    == Some(v.model()),
                None => match self.model() {
                    ValModel::Record(fs) => record_get(fs, key@) is None,
                    _ => true,
                },
            },
    {
        match self {
            Value::Record(fields) => {
                match find_key(fields, key) {
                    Some(pos) => Some(&fields[pos].1),
                    None => None,
                }
            },
            _ => None,
        }
    }

    /// Sets field `key` to `v`: replaces the first field with that key, or
    /// appends a new field. Fails on a value that is not a record, leaving it
    /// unchanged.
    pub fn set_field(&mut self, key: String, v: Value) -> (r: Result<(), EngineError>)
        ensures
            match r {
                Ok(()) => old(self).model() matches ValModel::Record(fs)
                    && final(self).model() == ValModel::Record(
                    record_set(fs, key@, v.model()),
                ),
                Err(e) => {
                    &&& !(old(self).model() matches ValModel::Record(_))
                    &&& e.is_value()
                    &&& final(self).model() == old(self).model()
                },
            },
    {
        let is_record = match self {
            Value::Record(_) => true,
            _ => false,
        };
        if !is_record {
            return Err(EngineError::InvalidValue(String::from_str(
                "value is not a record",
            )));
        }
        let mut taken = Value::Unit;
        core::mem::swap(self, &mut taken);
        match taken {
            Value::Record(mut fields) => {
                let ghost fs0 = fields@;
                match find_key(&fields, &key) {
                    Some(pos) => {
                        fields.remove(pos);
                        fields.insert(pos, (key, v));
                        proof {
                            assert(fields@ =~= fs0.update(pos as int, fields@[pos as int]));
                            assert(fields_model(fields@) =~= record_set(
                                fields_model(fs0),
                                fields@[pos as int].0@,
                                fields@[pos as int].1.model(),
                            ));
                        }
                    },
                    None => {
                        fields.push((key, v));
                        proof {
                            assert(fields_model(fields@) =~= record_set(
                                fields_model(fs0),
                                fields@[fields@.len() - 1].0@,
                                fields@[fields@.len() - 1].1.model(),
                            ));
                        }
                    },
                }
                *self = Value::Record(fields);
                Ok(())
            },
            _ => {
                // unreachable: checked above
                proof {
                    assert(false);
                }
                Err(EngineError::InvalidValue(String::from_str(
                    "value is not a record",
                )))
            },
        }
    }
}

} // verus!
