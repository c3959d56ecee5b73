//! Walking a chain of keys down nested records: borrowed look-up of a dotted
//! path, and setting a value at the end of a path, creating empty intermediate
//! records where the chain runs past the existing structure and stopping
//! safely where it meets a value that is not a record.

use vstd::prelude::*;

use crate::record::{find_key, record_get, record_set};
use crate::value::{fields_model, lemma_fields_model, ValModel, Value};

verus! {

broadcast use lemma_fields_model;

/// The models of a sequence of path keys, key by key.
pub open spec fn keys_model(ks: Seq<String>) -> Seq<Seq<char>>
    decreases ks,
{
    if ks.len() <= 0 {
        Seq::empty()
    } else {
        proof {
            assert(decreases_to!(ks => ks.subrange(0, ks.len() - 1)));
            assert(ks.drop_last() == ks.subrange(0, ks.len() - 1));
        }
        keys_model(ks.drop_last()).push(ks.last()@)
    }
}

/// `keys_model` maps the key sequence key by key.
pub broadcast proof fn lemma_keys_model(ks: Seq<String>)
    ensures
        (#[trigger] keys_model(ks)).len() == ks.len(),
        forall|i: int| 0 <= i < ks.len() ==> keys_model(ks)[i] == ks[i]@,
    decreases ks.len(),
{
    if ks.len() > 0 {
        lemma_keys_model(ks.drop_last());
        assert(forall|i: int| 0 <= i < ks.len() - 1 ==> ks.drop_last()[i] == ks[i]);
    }
}

/// The value reached by following `keys` down `m`: the whole value for an
/// empty path, `None` as soon as a key is absent or a non-record is reached
/// before the path ends.
pub open spec fn nested_get(m: ValModel, keys: Seq<Seq<char>>) -> Option<ValModel>
    decreases keys.len(),
{
    if keys.len() == 0 {
        Some(m)
    } else {
        match m {
            ValModel::Record(fs) => match record_get(fs, keys[0]) {
                Some(c) => nested_get(c, keys.drop_first()),
                None => None,
            },
            _ => None,
        }
    }
}

/// The value after setting `keys` to `nv` inside `m`: intermediate records
/// are created where a key is absent, and the value is returned unchanged
/// where the path meets a non-record or is empty.
pub open spec fn nested_set(m: ValModel, keys: Seq<Seq<char>>, nv: ValModel) -> ValModel
    decreases keys.len(),
{
    if keys.len() == 0 {
        m
    } else {
        match m {
            ValModel::Record(fs) => {
                if keys.len() == 1 {
                    ValModel::Record(record_set(fs, keys[0], nv))
                } else {
                    let child = match record_get(fs, keys[0]) {
                        Some(c) => c,
                        None => ValModel::Record(Seq::empty()),
                    };
                    ValModel::Record(
                        record_set(fs, keys[0], nested_set(child, keys.drop_first(), nv)),
                    )
                }
            },
            _ => m,
        }
    }
}

/// Borrowed look-up of the value at path `keys` inside `value`.
pub fn get_nested_value<'a>(value: &'a Value, keys: &Vec<String>) -> (r: Option<&'a Value>)
    ensures
        match r {
            Some(v) => nested_get(value.model(), keys_model(keys@)) == Some(v.model()),
            None => nested_get(value.model(), keys_model(keys@)) is None,
        },
{
    broadcast use lemma_keys_model;

    let ghost all = keys_model(keys@);
    let mut cur: &Value = value;
    let mut i: usize = 0;
    proof {
        assert(all.skip(0) =~= all);
    }
    while i < keys.len()
        invariant
            i <= keys@.len(),
            all == keys_model(keys@),
            all.len() == keys@.len(),
            forall|j: int| 0 <= j < keys@.len() ==> all[j] == keys@[j]@,
            nested_get(value.model(), all) == nested_get(cur.model(), all.skip(i as int)),
        decreases keys@.len() - i,
    {
        match cur {
            Value::Record(fields) => {
                match find_key(fields, &keys[i]) {
                    Some(pos) => {
                        proof {
                            assert(all.skip(i as int)[0] == keys@[i as int]@);
                            assert(record_get(fields_model(fields@), keys@[i as int]@)
                                == Some(fields@[pos as int].1.model()));
                            assert(all.skip(i as int).drop_first() =~= all.skip(i + 1));
                        }
                        cur = &fields[pos].1;
                        i = i + 1;
                    },
                    None => {
                        proof {
                            assert(all.skip(i as int)[0] == keys@[i as int]@);
                        }
                        return None;
                    },
                }
            },
            _ => {
                return None;
            },
        }
    }
    proof {
        assert(all.skip(i as int) =~= Seq::<Seq<char>>::empty());
    }
    Some(cur)
}

/// Sets the value at path `keys` inside `value`, starting from key `from`.
fn set_nested_from(value: Value, keys: &Vec<String>, from: usize, nv: Value) -> (r: Value)
    requires
        from <= keys@.len(),
    ensures
        r.model() == nested_set(value.model(), keys_model(keys@).skip(from as int), nv.model()),
    decreases keys@.len() - from,
{
    broadcast use lemma_keys_model;

    let ghost ks = keys_model(keys@).skip(from as int);
    if from >= keys.len() {
        proof {
            assert(ks =~= Seq::<Seq<char>>::empty());
        }
        return value;
    }
    proof {
        assert(ks[0] == keys@[from as int]@);
        assert(ks.len() == keys@.len() - from);
    }
    match value {
        Value::Record(mut fields) => {
            let ghost fs0 = fields@;
            if from == keys.len() - 1 {
                match find_key(&fields, &keys[from]) {
                    Some(pos) => {
                        fields.remove(pos);
                        fields.insert(pos, (keys[from].clone(), nv));
                        proof {
                            assert(fields@ =~= fs0.update(pos as int, fields@[pos as int]));
                            assert(fields_model(fields@) =~= record_set(
                                fields_model(fs0),
                                ks[0],
                                fields@[pos as int].1.model(),
                            ));
                        }
                    },
                    None => {
                        fields.push((keys[from].clone(), nv));
                        proof {
                            assert(fields_model(fields@) =~= record_set(
                                fields_model(fs0),
                                ks[0],
                                fields@[fields@.len() - 1].1.model(),
                            ));
                        }
                    },
                }
                Value::Record(fields)
            } else {
                proof {
                    assert(ks.drop_first() =~= keys_model(keys@).skip(from + 1));
                }
                match find_key(&fields, &keys[from]) {
                    Some(pos) => {
                        let pair = fields.remove(pos);
                        let ghost child0 = pair.1;
                        proof {
                            assert(record_get(fields_model(fs0), ks[0])
                                == Some(child0.model()));
                        }
                        let newchild = set_nested_from(pair.1, keys, from + 1, nv);
                        fields.insert(pos, (keys[from].clone(), newchild));
                        proof {
                            assert(fields@ =~= fs0.update(pos as int, fields@[pos as int]));
                            assert(fields_model(fields@) =~= record_set(
                                fields_model(fs0),
                                ks[0],
                                fields@[pos as int].1.model(),
                            ));
                        }
                    },
                    None => {
                        let child = Value::empty_record();
                        let newchild = set_nested_from(child, keys, from + 1, nv);
                        fields.push((keys[from].clone(), newchild));
                        proof {
                            assert(fields_model(fields@) =~= record_set(
                                fields_model(fs0),
                                ks[0],
                                fields@[fields@.len() - 1].1.model(),
                            ));
                        }
                    },
                }
                Value::Record(fields)
            }
        },
        other => other,
    }
}

/// Sets the value at path `keys` inside `value`. An empty path leaves the
/// value unchanged; a path that meets a non-record before its end leaves the
/// value unchanged; absent intermediate keys are created as empty records.
pub fn set_nested_value(value: &mut Value, keys: &Vec<String>, new_value: Value)
    ensures
        final(value).model() == nested_set(
            old(value).model(),
            keys_model(keys@),
            new_value.model(),
        ),
{
    broadcast use lemma_keys_model;

    let mut taken = Value::Unit;
    core::mem::swap(value, &mut taken);
    let out = set_nested_from(taken, keys, 0, new_value);
    proof {
        assert(keys_model(keys@).skip(0) =~= keys_model(keys@));
    }
    *value = out;
}


/// What the value-getting node emits for an input: a record yields the
/// value at the path (the unit placeholder when absent); a list yields the
/// per-element look-ups, absent ones as placeholders; anything else yields
/// nothing.
pub open spec fn get_values_spec(m: ValModel, keys: Seq<Seq<char>>) -> Option<ValModel> {
    match m {
        ValModel::Record(_) => Some(
            match nested_get(m, keys) {
                Some(v) => v,
                None => ValModel::Unit,
            },
        ),
        ValModel::List(items) => Some(
            ValModel::List(
                Seq::new(
                    items.len(),
                    |i: int|
                        match nested_get(items[i], keys) {
                            Some(v) => v,
                            None => ValModel::Unit,
                        },
                ),
            ),
        ),
        _ => None,
    }
}

/// The value-getting node's computation over a record or a list input.
pub fn get_values(value: &Value, keys: &Vec<String>) -> (r: Option<Value>)
    ensures
        match r {
            Some(v) => get_values_spec(value.model(), keys_model(keys@)) == Some(v.model()),
            None => get_values_spec(value.model(), keys_model(keys@)) is None,
        },
{
    broadcast use crate::value::lemma_seq_model;

    match value {
        Value::Record(_) => {
            match get_nested_value(value, keys) {
                Some(found) => Some(found.deep_clone()),
                None => Some(Value::Unit),
            }
        },
        Value::List(items) => {
            let mut out: Vec<Value> = Vec::new();
            let mut i: usize = 0;
            while i < items.len()
                invariant
                    i <= items@.len(),
                    out@.len() == i,
                    forall|j: int| 0 <= j < i ==> (#[trigger] out@[j]).model() == (
                    match nested_get(items@[j].model(), keys_model(keys@)) {
                        Some(v) => v,
                        None => ValModel::Unit,
                    }),
                decreases items@.len() - i,
            {
                match get_nested_value(&items[i], keys) {
                    Some(found) => out.push(found.deep_clone()),
                    None => out.push(Value::Unit),
                }
                i = i + 1;
            }
            proof {
                crate::value::lemma_seq_model(out@);
                crate::value::lemma_seq_model(items@);
                assert(crate::value::seq_model(out@) =~= Seq::new(
                    crate::value::seq_model(items@).len(),
                    |i: int|
                        match nested_get(
                            crate::value::seq_model(items@)[i],
                            keys_model(keys@),
                        ) {
                            Some(v) => v,
                            None => ValModel::Unit,
                        },
                ));
            }
            Some(Value::List(out))
        },
        _ => None,
    }
}

/// The record the to-object node builds: the input value set at the path
/// inside a fresh empty record.
pub fn make_object(keys: &Vec<String>, value: Value) -> (r: Value)
    ensures
        r.model() == nested_set(
            ValModel::Record(Seq::<(Seq<char>, ValModel)>::empty()),
            keys_model(keys@),
            value.model(),
        ),
{
    let mut out = Value::empty_record();
    set_nested_value(&mut out, keys, value);
    out
}

} // verus!
