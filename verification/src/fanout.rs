//! The fan-out coordinator: splits one value into an ordered run of tagged
//! sub-values, pushing one map frame per item. A value that is not a list is
//! treated as a singleton run of length 1, which keeps the paired fan-in
//! uniform; an empty list emits zero items, which the fan-in must tolerate.

use vstd::prelude::*;

use crate::token::{pushed_key, CanonicalKey, ContextToken};
use crate::value::{lemma_seq_model, ValModel, Value};

verus! {

broadcast use lemma_seq_model;

/// The run of tagged items that fanning `m` out under key `k` emits, in
/// index order: element `i` of a list of length `n` under the key extended
/// by frame `(i, n)`; any other value as the single element of a run of
/// length 1, under the key extended by frame `(0, 1)`.
pub open spec fn fan_out_model(k: CanonicalKey, m: ValModel) -> Seq<(CanonicalKey, ValModel)> {
    match m {
        ValModel::List(items) => Seq::new(
            items.len(),
            |i: int| (pushed_key(k, i as usize, items.len() as usize), items[i]),
        ),
        _ => seq![(pushed_key(k, 0usize, 1usize), m)],
    }
}

/// Splits `value` into its run of tagged items, in index order: element `i`
/// of a list of length `n` is tagged with the token extended by frame
/// `(i, n)`; a non-list value becomes the single item of a run of length 1,
/// tagged with frame `(0, 1)`. An empty list yields no items.
pub fn fan_out(token: &ContextToken, value: Value) -> (r: Vec<(ContextToken, Value)>)
    ensures
        ({
            let fo = fan_out_model(token.key(), value.model());
            &&& r@.len() == fo.len()
            &&& forall|i: int| 0 <= i < fo.len() ==> (#[trigger] r@[i]).0.key() == fo[i].0
                && r@[i].1.model() == fo[i].1
        }),
        token.wf() ==> forall|i: int| 0 <= i < r@.len() ==> (#[trigger] r@[i]).0.wf(),
{
    match value {
        Value::List(items) => {
            let n = items.len();
            let mut out: Vec<(ContextToken, Value)> = Vec::new();
            let mut i: usize = 0;
            while i < n
                invariant
                    i <= n,
                    n == items@.len(),
                    out@.len() == i,
                    forall|j: int| 0 <= j < i ==> {
                        &&& (#[trigger] out@[j]).0.key() == pushed_key(
                            token.key(),
                            j as usize,
                            n,
                        )
                        &&& out@[j].1.model() == items@[j].model()
                        &&& (token.wf() ==> out@[j].0.wf())
                    },
                decreases n - i,
            {
                let tagged = match token.push_frame(i, n) {
                    Ok(t) => t,
                    Err(_) => vstd::pervasive::unreached(),
                };
                out.push((tagged, items[i].deep_clone()));
                i = i + 1;
            }
            proof {
                assert(value.model() == ValModel::List(crate::value::seq_model(items@)));
            }
            out
        },
        other => {
            let tagged = match token.push_frame(0, 1) {
                Ok(t) => t,
                Err(_) => vstd::pervasive::unreached(),
            };
            let mut out: Vec<(ContextToken, Value)> = Vec::new();
            out.push((tagged, other));
            out
        },
    }
}

} // verus!
