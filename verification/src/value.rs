//! The payload values carried through the graph, modelled as plain data: a
//! unit placeholder, booleans, integers, strings, lists and keyed records.
//! The join engine moves these values around and occasionally inspects their
//! outermost shape; contracts speak about the mathematical model [`ValModel`].

use vstd::prelude::*;

use crate::errors::EngineError;

verus! {

/// A payload value.
#[derive(Debug, PartialEq, Eq)]
pub enum Value {
    /// The unit placeholder, also used to fill missing slots of a partial
    /// aggregate that is flushed on abandonment.
    Unit,
    Bool(bool),
    Int(i64),
    Str(String),
    /// An ordered sequence of values.
    List(Vec<Value>),
    /// A keyed record: ordered fields, keys intended to be distinct.
    Record(Vec<(String, Value)>),
}

/// The mathematical model of a [`Value`].
pub enum ValModel {
    Unit,
    Bool(bool),
    Int(i64),
    Str(Seq<char>),
    List(Seq<ValModel>),
    Record(Seq<(Seq<char>, ValModel)>),
}

impl Value {
    /// The mathematical model of this value.
    pub open spec fn model(self) -> ValModel
        decreases self,
    {
        match self {
            Value::Unit => ValModel::Unit,
            Value::Bool(b) => ValModel::Bool(b),
            Value::Int(i) => ValModel::Int(i),
            Value::Str(s) => ValModel::Str(s@),
            Value::List(items) => {
                proof {
                    assert(decreases_to!(items => items@));
                    assert(decreases_to!(self => items@));
                }
                ValModel::List(seq_model(items@))
            },
            Value::Record(fields) => {
                proof {
                    assert(decreases_to!(fields => fields@));
                    assert(decreases_to!(self => fields@));
                }
                ValModel::Record(fields_model(fields@))
            },
        }
    }
}

/// The models of a sequence of values, element by element.
pub open spec fn seq_model(s: Seq<Value>) -> Seq<ValModel>
    decreases s,
{
    if s.len() <= 0 {
        Seq::empty()
    } else {
        proof {
            assert(decreases_to!(s => s.subrange(0, s.len() - 1)));
            assert(s.drop_last() == s.subrange(0, s.len() - 1));
            assert(decreases_to!(s => s[s.len() - 1]));
            assert(s.last() == s[s.len() - 1]);
        }
        seq_model(s.drop_last()).push(s.last().model())
    }
}

/// The models of a sequence of record fields, field by field.
pub open spec fn fields_model(s: Seq<(String, Value)>) -> Seq<(Seq<char>, ValModel)>
    decreases s,
{
    if s.len() <= 0 {
        Seq::empty()
    } else {
        proof {
            assert(decreases_to!(s => s.subrange(0, s.len() - 1)));
            assert(s.drop_last() == s.subrange(0, s.len() - 1));
            assert(decreases_to!(s => s[s.len() - 1]));
            assert(s.last() == s[s.len() - 1]);
        }
        fields_model(s.drop_last()).push((s.last().0@, s.last().1.model()))
    }
}

/// `seq_model` maps the sequence element by element.
pub broadcast proof fn lemma_seq_model(s: Seq<Value>)
    ensures
        (#[trigger] seq_model(s)).len() == s.len(),
        forall|i: int| 0 <= i < s.len() ==> seq_model(s)[i] == s[i].model(),
    decreases s.len(),
{
    if s.len() > 0 {
        lemma_seq_model(s.drop_last());
        assert(forall|i: int| 0 <= i < s.len() - 1 ==> s.drop_last()[i] == s[i]);
    }
}

/// `fields_model` maps the field sequence field by field.
pub broadcast proof fn lemma_fields_model(s: Seq<(String, Value)>)
    ensures
        (#[trigger] fields_model(s)).len() == s.len(),
        forall|i: int| 0 <= i < s.len() ==> fields_model(s)[i] == (s[i].0@, s[i].1.model()),
    decreases s.len(),
{
    if s.len() > 0 {
        lemma_fields_model(s.drop_last());
        assert(forall|i: int| 0 <= i < s.len() - 1 ==> s.drop_last()[i] == s[i]);
    }
}

impl Value {
    /// An exact copy: the copy's model equals the original's.
    pub fn deep_clone(&self) -> (r: Value)
        ensures
            r.model() == self.model(),
        decreases *self,
    {
        broadcast use lemma_seq_model, lemma_fields_model;

        match self {
            Value::Unit => Value::Unit,
            Value::Bool(b) => Value::Bool(*b),
            Value::Int(i) => Value::Int(*i),
            Value::Str(s) => Value::Str(s.clone()),
            Value::List(items) => {
                proof {
                    assert(decreases_to!(*self => *items));
                    assert(decreases_to!(*items => items@));
                    assert(decreases_to!(*self => items@));
                }
                let mut out: Vec<Value> = Vec::new();
                let mut i: usize = 0;
                while i < items.len()
                    invariant
                        i <= items.len(),
                        out@.len() == i,
                        decreases_to!(*self => items@),
                        forall|j: int| 0 <= j < i ==> (#[trigger] out@[j]).model()
                            == items@[j].model(),
                    decreases items.len() - i,
                {
                    proof {
                        assert(decreases_to!(items@ => items@[i as int]));
                        assert(decreases_to!(*self => items@[i as int]));
                    }
                    out.push(items[i].deep_clone());
                    i = i + 1;
                }
                proof {
                    assert(seq_model(out@) =~= seq_model(items@));
                }
                Value::List(out)
            },
            Value::Record(fields) => {
                proof {
                    assert(decreases_to!(*self => *fields));
                    assert(decreases_to!(*fields => fields@));
                    assert(decreases_to!(*self => fields@));
                }
                let mut out: Vec<(String, Value)> = Vec::new();
                let mut i: usize = 0;
                while i < fields.len()
                    invariant
                        i <= fields.len(),
                        out@.len() == i,
                        decreases_to!(*self => fields@),
                        forall|j: int| 0 <= j < i ==> (#[trigger] out@[j]).0@ == fields@[j].0@
                            && out@[j].1.model() == fields@[j].1.model(),
                    decreases fields.len() - i,
                {
                    proof {
                        assert(decreases_to!(fields@ => fields@[i as int]));
                        assert(decreases_to!(fields@[i as int] => fields@[i as int].1));
                        assert(decreases_to!(*self => fields@[i as int].1));
                    }
                    let key = fields[i].0.clone();
                    let val = fields[i].1.deep_clone();
                    out.push((key, val));
                    i = i + 1;
                }
                proof {
                    assert(fields_model(out@) =~= fields_model(fields@));
                }
                Value::Record(out)
            },
        }
    }

    /// Whether this value is a list.
    pub fn is_array(&self) -> (r: bool)
        ensures
            r == (self.model() matches ValModel::List(_)),
    {
        match self {
            Value::List(_) => true,
            _ => false,
        }
    }

    /// Whether this value is an empty list. A value that is not a list at all
    /// counts as non-empty.
    pub fn is_empty_array(&self) -> (r: bool)
        ensures
            r == (self.model() matches ValModel::List(s) && s.len() == 0),
    {
        broadcast use lemma_seq_model;

        match self {
            Value::List(items) => items.len() == 0,
            _ => false,
        }
    }

    /// The length of a list, and 1 for any other value (treated as a
    /// singleton run, consistently with fan-out).
    pub fn array_length(&self) -> (r: usize)
        ensures
            match self.model() {
                ValModel::List(s) => r == s.len(),
                _ => r == 1,
            },
    {
        broadcast use lemma_seq_model;

        match self {
            Value::List(items) => {
                proof {
                    assert(self.model() == ValModel::List(seq_model(items@)));
                    assert(seq_model(items@).len() == items@.len());
                }
                items.len()
            },
            _ => 1,
        }
    }

    /// The first item of a list, or the value itself when it is not a list.
    /// An empty list has no first item: that is an error.
    pub fn array_first(self) -> (r: Result<Value, EngineError>)
        ensures
            match r {
                Ok(v) => match self.model() {
                    ValModel::List(s) => s.len() > 0 && v.model() == s[0],
                    m => v.model() == m,
                },
                Err(e) => (self.model() matches ValModel::List(s) && s.len() == 0)
                    && e.is_value(),
            },
    {
        broadcast use lemma_seq_model;

        match self {
            Value::List(mut items) => {
                if items.len() == 0 {
                    Err(EngineError::InvalidValue(String::from_str(
                        "input array is empty, no first item",
                    )))
                } else {
                    let ghost s0 = items@;
                    let v = items.remove(0);
                    proof {
                        assert(v == s0[0]);
                        assert(self.model() == ValModel::List(seq_model(s0)));
                        assert(seq_model(s0)[0] == s0[0].model());
                        assert(v.model() == seq_model(s0)[0]);
                    }
                    Ok(v)
                }
            },
            other => Ok(other),
        }
    }

    /// The last item of a list, or the value itself when it is not a list.
    /// An empty list has no last item: that is an error.
    pub fn array_last(self) -> (r: Result<Value, EngineError>)
        ensures
            match r {
                Ok(v) => match self.model() {
                    ValModel::List(s) => s.len() > 0 && v.model() == s.last(),
                    m => v.model() == m,
                },
                Err(e) => (self.model() matches ValModel::List(s) && s.len() == 0)
                    && e.is_value(),
            },
    {
        broadcast use lemma_seq_model;

        match self {
            Value::List(mut items) => {
                if items.len() == 0 {
                    Err(EngineError::InvalidValue(String::from_str(
                        "input array is empty, no last item",
                    )))
                } else {
                    let idx = items.len() - 1;
                    Ok(items.remove(idx))
                }
            },
            other => Ok(other),
        }
    }

    /// Everything after the first item of a list; the empty list for an empty
    /// list or for a value that is not a list.
    pub fn array_rest(self) -> (r: Value)
        ensures
            match self.model() {
                ValModel::List(s) => r.model() == ValModel::List(
                    if s.len() > 0 {
                        s.drop_first()
                    } else {
                        Seq::<ValModel>::empty()
                    },
                ),
                _ => r.model() == ValModel::List(Seq::<ValModel>::empty()),
            },
    {
        broadcast use lemma_seq_model;

        match self {
            Value::List(mut items) => {
                if items.len() > 0 {
                    let ghost before = items@;
                    items.remove(0);
                    proof {
                        assert(seq_model(items@) =~= seq_model(before).drop_first());
                    }
                }
                Value::List(items)
            },
            _ => {
                let items: Vec<Value> = Vec::new();
                proof {
                    assert(seq_model(items@) =~= Seq::<ValModel>::empty());
                }
                Value::List(items)
            },
        }
    }

    /// The item at position `n` of a list. A negative `n` is a configuration
    /// error; `n` past the end is a value error. A value that is not a list
    /// stands for itself at position 0 only.
    pub fn array_nth(self, n: i64) -> (r: Result<Value, EngineError>)
        ensures
            match r {
                Ok(v) => n >= 0 && match self.model() {
                    ValModel::List(s) => n < s.len() && v.model() == s[n as int],
                    m => n == 0 && v.model() == m,
                },
                Err(e) => {
                    &&& (n < 0 ==> e.is_config())
                    &&& (n >= 0 ==> e.is_value() && match self.model() {
                        ValModel::List(s) => n >= s.len(),
                        _ => n > 0,
                    })
                },
            },
    {
        broadcast use lemma_seq_model;

        if n < 0 {
            return Err(EngineError::InvalidConfig(String::from_str(
                "n must be non-negative",
            )));
        }
        match self {
            Value::List(mut items) => {
                if (n as u64) >= (items.len() as u64) {
                    Err(EngineError::InvalidValue(String::from_str(
                        "input array is shorter than n+1",
                    )))
                } else {
                    let ghost s0 = items@;
                    let v = items.remove(n as usize);
                    proof {
                        assert(v == s0[n as int]);
                        assert(self.model() == ValModel::List(seq_model(s0)));
                        assert(seq_model(s0)[n as int] == s0[n as int].model());
                    }
                    Ok(v)
                }
            },
            other => {
                if n == 0 {
                    Ok(other)
                } else {
                    Err(EngineError::InvalidValue(String::from_str(
                        "input is not an array and n != 0",
                    )))
                }
            },
        }
    }

    /// The first `n` items of a list; the whole list when `n` exceeds its
    /// length; the empty list when `n <= 0`; and the singleton list holding
    /// the value when it is not a list.
    pub fn array_take(self, n: i64) -> (r: Value)
        ensures
            ({
                let m = self.model();
                if n <= 0 {
                    r.model() == ValModel::List(Seq::<ValModel>::empty())
                } else {
                    match m {
                        ValModel::List(s) => if n >= s.len() {
                            r.model() == m
                        } else {
                            r.model() == ValModel::List(s.take(n as int))
                        },
                        _ => r.model() == ValModel::List(seq![m]),
                    }
                }
            }),
    {
        broadcast use lemma_seq_model;

        if n <= 0 {
            let items: Vec<Value> = Vec::new();
            proof {
                assert(seq_model(items@) =~= Seq::<ValModel>::empty());
            }
            return Value::List(items);
        }
        match self {
            Value::List(mut items) => {
                if (n as u64) >= (items.len() as u64) {
                    proof {
                        assert(n >= items@.len());
                        assert(self.model() == ValModel::List(seq_model(items@)));
                    }
                    Value::List(items)
                } else {
                    let ghost before = items@;
                    items.truncate(n as usize);
                    proof {
                        assert(n < before.len());
                        assert(seq_model(items@) =~= seq_model(before).take(n as int));
                        assert(self.model() == ValModel::List(seq_model(before)));
                    }
                    Value::List(items)
                }
            },
            other => {
                let mut items: Vec<Value> = Vec::new();
                items.push(other);
                proof {
                    assert(items@[0] == self);
                    assert(seq_model(items@) =~= seq![items@[0].model()]);
                }
                Value::List(items)
            },
        }
    }
}

} // verus!
