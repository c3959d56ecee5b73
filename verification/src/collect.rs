//! The ordered fan-in: collects tagged values back into an array, positioned
//! by the top map frame of each arriving token. At most one aggregate is in
//! flight per instance; an arrival under a different run identifier flushes
//! the in-progress buffer as a partial aggregate (missing slots filled with
//! the unit placeholder) before a new collection starts.

use vstd::prelude::*;

use crate::errors::EngineError;
use crate::fanout::fan_out_model;
use crate::token::{popped_key, pushed_key, CanonicalKey, ContextToken, MapFrame};
use crate::value::{lemma_seq_model, seq_model, ValModel, Value};

verus! {

broadcast use lemma_seq_model;

/// The models of a sequence of optional slot values, slot by slot.
pub open spec fn slots_model(s: Seq<Option<Value>>) -> Seq<Option<ValModel>>
    decreases s,
{
    if s.len() <= 0 {
        Seq::empty()
    } else {
        proof {
            assert(decreases_to!(s => s.subrange(0, s.len() - 1)));
            assert(s.drop_last() == s.subrange(0, s.len() - 1));
        }
        slots_model(s.drop_last()).push(
            match s.last() {
                Some(v) => Some(v.model()),
                None => None,
            },
        )
    }
}

/// `slots_model` maps the slots slot by slot.
pub broadcast proof fn lemma_slots_model(s: Seq<Option<Value>>)
    ensures
        (#[trigger] slots_model(s)).len() == s.len(),
        forall|i: int| 0 <= i < s.len() ==> slots_model(s)[i] == (match s[i] {
            Some(v) => Some(v.model()),
            None => None::<ValModel>,
        }),
    decreases s.len(),
{
    if s.len() > 0 {
        lemma_slots_model(s.drop_last());
        assert(forall|i: int| 0 <= i < s.len() - 1 ==> s.drop_last()[i] == s[i]);
    }
}

/// Whether every slot has been written.
pub open spec fn all_filled(slots: Seq<Option<ValModel>>) -> bool {
    forall|i: int| 0 <= i < slots.len() ==> (#[trigger] slots[i]) is Some
}

/// The buffered values, with the unit placeholder standing in for every slot
/// that was never written.
pub open spec fn filled_with_unit(slots: Seq<Option<ValModel>>) -> Seq<ValModel> {
    Seq::new(
        slots.len(),
        |i: int|
            match slots[i] {
                Some(v) => v,
                None => ValModel::Unit,
            },
    )
}

/// The abstract state of an ordered fan-in instance: the slot buffer (empty
/// when idle) and the canonical key of the arrival that is collecting (`None`
/// when idle).
#[verifier::ext_equal]
pub struct CState {
    pub slots: Seq<Option<ValModel>>,
    pub last: Option<CanonicalKey>,
}

/// The idle state: no buffer, no collection in progress.
pub open spec fn idle_state() -> CState {
    CState { slots: Seq::empty(), last: None }
}

/// What one arrival does to an ordered fan-in: the successor state, the
/// emissions in order, and whether the arrival was accepted.
#[verifier::ext_equal]
pub struct COutcome {
    pub state: CState,
    pub emits: Seq<(CanonicalKey, ValModel)>,
    pub ok: bool,
}

/// One step of the ordered fan-in state machine, on arrival of value `m`
/// under key `k`:
/// - a malformed top frame (index not below total) is rejected outright,
///   before anything else: even when the arrival also carries a new run
///   identifier, the in-progress buffer is kept rather than flushed, so a
///   rejected arrival never changes state — a deliberate choice where the
///   design leaves the order open;
/// - a different run identifier while collecting flushes the buffer as a
///   partial aggregate under the stored key with its top frame popped;
/// - a frameless arrival passes straight through and clears the buffer;
/// - a frame total contradicting the in-progress buffer is rejected;
/// - otherwise the value is written at the frame's index (overwrite wins),
///   and a full buffer is emitted under `k` with its top frame popped.
pub open spec fn collect_step(s: CState, k: CanonicalKey, m: ValModel) -> COutcome {
    let flushing = match s.last {
        Some(lk) => lk.0 != k.0,
        None => false,
    };
    let flush_emits = match s.last {
        Some(lk) => if flushing {
            seq![(popped_key(lk), ValModel::List(filled_with_unit(s.slots)))]
        } else {
            Seq::empty()
        },
        None => Seq::empty(),
    };
    let slots1 = if flushing {
        Seq::<Option<ValModel>>::empty()
    } else {
        s.slots
    };
    if k.1.len() == 0 {
        COutcome { state: idle_state(), emits: flush_emits.push((k, m)), ok: true }
    } else {
        let f = k.1.last();
        if f.index >= f.total {
            COutcome { state: s, emits: Seq::empty(), ok: false }
        } else if slots1.len() > 0 && slots1.len() != f.total {
            COutcome { state: s, emits: Seq::empty(), ok: false }
        } else {
            let base = if slots1.len() == f.total {
                slots1
            } else {
                Seq::new(f.total as nat, |i: int| None::<ValModel>)
            };
            let written = base.update(f.index as int, Some(m));
            if all_filled(written) {
                COutcome {
                    state: idle_state(),
                    emits: flush_emits.push(
                        (popped_key(k), ValModel::List(filled_with_unit(written))),
                    ),
                    ok: true,
                }
            } else {
                COutcome {
                    state: CState { slots: written, last: Some(k) },
                    emits: flush_emits,
                    ok: true,
                }
            }
        }
    }
}

/// Whether a list of emitted (token, value) pairs realizes the emissions of
/// the abstract machine, key by key and model by model.
pub open spec fn emits_match(
    em: Seq<(ContextToken, Value)>,
    spec_em: Seq<(CanonicalKey, ValModel)>,
) -> bool {
    &&& em.len() == spec_em.len()
    &&& forall|i: int| 0 <= i < em.len() ==> (#[trigger] em[i]).0.key() == spec_em[i].0
        && em[i].1.model() == spec_em[i].1
}

/// Empties a slot buffer into the aggregate it stands for, substituting the
/// unit placeholder for every slot that was never written.
pub fn drain_input_values(values: Vec<Option<Value>>) -> (r: Vec<Value>)
    ensures
        seq_model(r@) == filled_with_unit(slots_model(values@)),
{
    broadcast use lemma_slots_model;

    let ghost orig = values@;
    let mut rest = values;
    let mut out: Vec<Value> = Vec::new();
    while rest.len() > 0
        invariant
            out@.len() + rest@.len() == orig.len(),
            rest@ == orig.skip(out@.len() as int),
            forall|j: int| 0 <= j < out@.len() ==> (#[trigger] out@[j]).model()
                == filled_with_unit(slots_model(orig))[j],
        decreases rest@.len(),
    {
        let ghost i = out@.len() as int;
        proof {
            lemma_slots_model(orig);
            assert(rest@[0] == orig[i]);
            assert(slots_model(orig).len() == orig.len());
            assert(slots_model(orig)[i] == (match orig[i] {
                Some(v) => Some(v.model()),
                None => None::<ValModel>,
            }));
        }
        match rest.remove(0) {
            Some(v) => out.push(v),
            None => out.push(Value::Unit),
        }
        proof {
            assert(rest@ =~= orig.skip(out@.len() as int));
        }
    }
    proof {
        assert(seq_model(out@) =~= filled_with_unit(slots_model(orig)));
    }
    out
}

/// An ordered fan-in instance.
pub struct Collector {
    slots: Vec<Option<Value>>,
    last: Option<ContextToken>,
}

impl Collector {
    /// The abstract state this instance realizes.
    pub closed spec fn state(self) -> CState {
        CState {
            slots: slots_model(self.slots@),
            last: match self.last {
                Some(t) => Some(t.key()),
                None => None,
            },
        }
    }

    /// Internal consistency: while collecting, the stored token has a top
    /// frame whose total is the buffer length; when idle, there is no buffer.
    pub closed spec fn wf(self) -> bool {
        match self.last {
            Some(t) => t.frames@.len() > 0 && t.frames@.last().total == self.slots@.len()
                && self.slots@.len() > 0,
            None => self.slots@.len() == 0,
        }
    }

    /// A fresh, idle instance.
    pub fn new() -> (c: Collector)
        ensures
            c.wf(),
            c.state() == idle_state(),
    {
        let c = Collector { slots: Vec::new(), last: None };
        proof {
            assert(slots_model(c.slots@) =~= Seq::<Option<ValModel>>::empty());
            assert(c.state() =~= idle_state());
        }
        c
    }

    /// Whether a collection is in progress.
    pub fn is_collecting(&self) -> (r: bool)
        ensures
            r == (self.state().last is Some),
    {
        match &self.last {
            Some(_) => true,
            None => false,
        }
    }

    /// Processes one arrival; returns the emissions in order. The returned
    /// tokens realize the keys of the abstract machine's emissions.
    pub fn process(&mut self, token: ContextToken, value: Value) -> (r: Result<
        Vec<(ContextToken, Value)>,
        EngineError,
    >)
        requires
            old(self).wf(),
        ensures
            final(self).wf(),
            ({
                let o = collect_step(old(self).state(), token.key(), value.model());
                match r {
                    Ok(em) => o.ok && final(self).state() == o.state && emits_match(em@, o.emits),
                    Err(e) => !o.ok && e.is_value() && final(self).state() == o.state,
                }
            }),
    {
        broadcast use lemma_slots_model;

        let ghost o = collect_step(old(self).state(), token.key(), value.model());
        let mut emissions: Vec<(ContextToken, Value)> = Vec::new();

        // Reject a malformed top frame before touching any state.
        let frame = token.peek_frame();
        if let Some(f) = frame {
            if f.index >= f.total {
                return Err(EngineError::InvalidValue(String::from_str(
                    "map frame index is out of bounds",
                )));
            }
        }

        // A different run identifier while collecting: flush the partial
        // aggregate under the stored key, with its top frame popped.
        let flushing = match &self.last {
            Some(lt) => lt.id != token.id,
            None => false,
        };
        if flushing {
            let mut taken_last: Option<ContextToken> = None;
            core::mem::swap(&mut self.last, &mut taken_last);
            let lt = match taken_last {
                Some(t) => t,
                None => vstd::pervasive::unreached(),
            };
            let mut taken_slots: Vec<Option<Value>> = Vec::new();
            core::mem::swap(&mut self.slots, &mut taken_slots);
            let arr = drain_input_values(taken_slots);
            let next = match lt.pop_frame() {
                Ok(t) => t,
                Err(_) => vstd::pervasive::unreached(),
            };
            emissions.push((next, Value::List(arr)));
        }

        match frame {
            None => {
                // No frame: bypass collection, pass the value through.
                self.slots = Vec::new();
                self.last = None;
                emissions.push((token, value));
                proof {
                    assert(slots_model(self.slots@) =~= Seq::<Option<ValModel>>::empty());
                    assert(final(self).state() =~= o.state);
                    assert(emits_match(emissions@, o.emits));
                }
                Ok(emissions)
            },
            Some(f) => {
                if self.slots.len() > 0 && self.slots.len() != f.total {
                    return Err(EngineError::InvalidValue(String::from_str(
                        "map frame total contradicts the collection in progress",
                    )));
                }
                if self.slots.len() != f.total {
                    // Initialize a fresh buffer of the declared run length.
                    let mut fresh: Vec<Option<Value>> = Vec::new();
                    let mut i: usize = 0;
                    while i < f.total
                        invariant
                            i <= f.total,
                            fresh@.len() == i,
                            forall|j: int| 0 <= j < i ==> (#[trigger] fresh@[j]) is None,
                        decreases f.total - i,
                    {
                        fresh.push(None);
                        i = i + 1;
                    }
                    self.slots = fresh;
                    proof {
                        assert(slots_model(self.slots@) =~= Seq::new(
                            f.total as nat,
                            |i: int| None::<ValModel>,
                        ));
                    }
                }
                let ghost base = slots_model(self.slots@);
                // Write the payload at the frame's index; overwrite wins.
                self.slots.remove(f.index);
                self.slots.insert(f.index, Some(value));
                proof {
                    assert(slots_model(self.slots@) =~= base.update(
                        f.index as int,
                        Some(value.model()),
                    ));
                }
                let ghost written = slots_model(self.slots@);

                // Completion test: is every slot written?
                let mut missing = false;
                let mut i: usize = 0;
                while i < self.slots.len()
                    invariant
                        i <= self.slots@.len(),
                        missing == exists|j: int|
                            0 <= j < i && (#[trigger] self.slots@[j]) is None,
                    decreases self.slots@.len() - i,
                {
                    if self.slots[i].is_none() {
                        missing = true;
                    }
                    i = i + 1;
                }
                if missing {
                    proof {
                        let jw = choose|j: int|
                            0 <= j < self.slots@.len() && (#[trigger] self.slots@[j]) is None;
                        assert(written[jw] is None);
                        assert(!all_filled(written));
                    }
                    self.last = Some(token);
                    proof {
                        assert(final(self).state() =~= o.state);
                        assert(emits_match(emissions@, o.emits));
                    }
                    Ok(emissions)
                } else {
                    proof {
                        assert forall|j: int| 0 <= j < written.len() implies (#[trigger] written[j])
                            is Some by {
                            assert(!(self.slots@[j] is None));
                        }
                        assert(all_filled(written));
                    }
                    let mut taken_slots: Vec<Option<Value>> = Vec::new();
                    core::mem::swap(&mut self.slots, &mut taken_slots);
                    let arr = drain_input_values(taken_slots);
                    let next = match token.pop_frame() {
                        Ok(t) => t,
                        Err(_) => vstd::pervasive::unreached(),
                    };
                    self.last = None;
                    emissions.push((next, Value::List(arr)));
                    proof {
                        assert(slots_model(self.slots@) =~= Seq::<Option<ValModel>>::empty());
                        assert(final(self).state() =~= o.state);
                        assert(emits_match(emissions@, o.emits));
                    }
                    Ok(emissions)
                }
            },
        }
    }
}

/// Runs the ordered fan-in over a whole sequence of arrivals, accumulating
/// the emissions in order; stops failed if any arrival is rejected.
pub open spec fn collect_run(s: CState, arrivals: Seq<(CanonicalKey, ValModel)>) -> COutcome
    decreases arrivals.len(),
{
    if arrivals.len() == 0 {
        COutcome { state: s, emits: Seq::empty(), ok: true }
    } else {
        let pre = collect_run(s, arrivals.drop_last());
        if !pre.ok {
            pre
        } else {
            let stepped = collect_step(pre.state, arrivals.last().0, arrivals.last().1);
            COutcome { state: stepped.state, emits: pre.emits + stepped.emits, ok: stepped.ok }
        }
    }
}

/// How many slots hold a value.
pub open spec fn count_some(s: Seq<Option<ValModel>>) -> int
    decreases s.len(),
{
    if s.len() == 0 {
        0
    } else {
        count_some(s.drop_last()) + if s.last() is Some {
            1int
        } else {
            0int
        }
    }
}

/// The count of filled slots is bounded by the slot count, and reaches it
/// exactly when every slot is filled.
pub proof fn lemma_count_some_bounds(s: Seq<Option<ValModel>>)
    ensures
        0 <= count_some(s) <= s.len(),
        count_some(s) == s.len() <==> all_filled(s),
    decreases s.len(),
{
    if s.len() > 0 {
        lemma_count_some_bounds(s.drop_last());
        assert(forall|i: int| 0 <= i < s.len() - 1 ==> s.drop_last()[i] == s[i]);
        if all_filled(s) {
            assert(all_filled(s.drop_last()));
        }
        if count_some(s) == s.len() {
            assert(count_some(s.drop_last()) == s.len() - 1);
            assert(all_filled(s.drop_last()));
            assert forall|i: int| 0 <= i < s.len() implies (#[trigger] s[i]) is Some by {
                if i < s.len() - 1 {
                    assert(s.drop_last()[i] is Some);
                }
            }
        }
    }
}

/// Writing one slot raises the count by one exactly when the slot was empty.
pub proof fn lemma_count_some_update(s: Seq<Option<ValModel>>, i: int, m: ValModel)
    requires
        0 <= i < s.len(),
    ensures
        count_some(s.update(i, Some(m))) == count_some(s) + if s[i] is Some {
            0int
        } else {
            1int
        },
    decreases s.len(),
{
    if i == s.len() - 1 {
        assert(s.update(i, Some(m)).drop_last() =~= s.drop_last());
        assert(s.update(i, Some(m)).last() == Some(m));
    } else {
        lemma_count_some_update(s.drop_last(), i, m);
        assert(s.update(i, Some(m)).drop_last() =~= s.drop_last().update(i, Some(m)));
        assert(s.update(i, Some(m)).last() == s.last());
    }
}

/// A buffer of empty slots has a filled count of zero.
pub proof fn lemma_count_some_none(n: nat)
    ensures
        count_some(Seq::new(n, |i: int| None::<ValModel>)) == 0,
    decreases n,
{
    if n > 0 {
        lemma_count_some_none((n - 1) as nat);
        assert(Seq::new(n, |i: int| None::<ValModel>).drop_last() =~= Seq::new(
            (n - 1) as nat,
            |i: int| None::<ValModel>,
        ));
    }
}

/// Whether `t` occurs among the first `j` entries of `ord`.
pub open spec fn appears_before(ord: Seq<int>, j: int, t: int) -> bool {
    exists|q: int| 0 <= q < j && ord[q] == t
}

proof fn lemma_round_trip_prefix(k: CanonicalKey, items: Seq<ValModel>, order: Seq<int>, j: int)
    requires
        1 <= items.len() <= usize::MAX,
        order.len() == items.len(),
        forall|q: int| 0 <= q < order.len() ==> 0 <= #[trigger] order[q] < items.len(),
        forall|q1: int, q2: int| 0 <= q1 < q2 < order.len() ==> order[q1] != order[q2],
        1 <= j <= order.len(),
    ensures
        ({
            let arr = fan_out_model(k, ValModel::List(items));
            let h = Seq::new(j as nat, |q: int| arr[order[q]]);
            let o = collect_run(idle_state(), h);
            &&& o.ok
            &&& j < items.len() ==> {
                &&& o.emits == Seq::<(CanonicalKey, ValModel)>::empty()
                &&& o.state.last == Some(
                    pushed_key(k, order[j - 1] as usize, items.len() as usize),
                )
                &&& o.state.slots.len() == items.len()
                &&& count_some(o.state.slots) == j
                &&& forall|t: int| 0 <= t < items.len() ==> o.state.slots[t] == (
                if appears_before(order, j, t) {
                    Some(items[t])
                } else {
                    None::<ValModel>
                })
            }
            &&& j == items.len() ==> {
                &&& o.state == idle_state()
                &&& o.emits == seq![(k, ValModel::List(items))]
            }
        }),
    decreases j,
{
    let n = items.len() as int;
    let arr = fan_out_model(k, ValModel::List(items));
    let h = Seq::new(j as nat, |q: int| arr[order[q]]);
    assert(h.drop_last() =~= Seq::new((j - 1) as nat, |q: int| arr[order[q]]));
    assert(h.last() == arr[order[j - 1]]);
    let idx = order[j - 1];
    assert(arr[idx] == (pushed_key(k, idx as usize, items.len() as usize), items[idx]));
    let kj = pushed_key(k, idx as usize, items.len() as usize);
    let fj = MapFrame { index: idx as usize, total: items.len() as usize };
    assert(kj.1.last() == fj);
    assert(kj.1.len() == k.1.len() + 1);
    if j == 1 {
        assert(collect_run(idle_state(), h.drop_last()) == COutcome {
            state: idle_state(),
            emits: Seq::<(CanonicalKey, ValModel)>::empty(),
            ok: true,
        });
        let base = Seq::new(items.len(), |i: int| None::<ValModel>);
        let written = base.update(idx, Some(items[idx]));
        lemma_count_some_none(items.len());
        lemma_count_some_update(base, idx, items[idx]);
        assert(count_some(written) == 1);
        lemma_count_some_bounds(written);
        if n == 1 {
            assert(all_filled(written));
            assert(popped_key(kj) == k) by {
                assert(kj.1.drop_last() =~= k.1);
            }
            assert(idx == 0);
            assert(filled_with_unit(written) =~= items);
            assert(collect_run(idle_state(), h).emits =~= seq![(k, ValModel::List(items))]);
        } else {
            assert(!all_filled(written));
            assert(collect_run(idle_state(), h).emits =~= Seq::<(
                CanonicalKey,
                ValModel,
            )>::empty());
            assert forall|t: int| 0 <= t < n implies written[t] == (if appears_before(
                order,
                1,
                t,
            ) {
                Some(items[t])
            } else {
                None::<ValModel>
            }) by {
                if t == idx {
                    assert(order[0] == t);
                    assert(appears_before(order, 1, t));
                } else {
                    if appears_before(order, 1, t) {
                        let q = choose|q: int| 0 <= q < 1 && order[q] == t;
                        assert(false);
                    }
                }
            }
        }
    } else {
        lemma_round_trip_prefix(k, items, order, j - 1);
        let pre = collect_run(idle_state(), h.drop_last());
        let kprev = pushed_key(k, order[j - 2] as usize, items.len() as usize);
        assert(pre.state.last == Some(kprev));
        assert(kprev.0 == kj.0);
        assert(pre.state.slots.len() == fj.total);
        let written = pre.state.slots.update(idx, Some(items[idx]));
        // this arrival's slot was still empty: the indexes are distinct
        assert(!appears_before(order, j - 1, idx)) by {
            if appears_before(order, j - 1, idx) {
                let q = choose|q: int| 0 <= q < j - 1 && order[q] == idx;
                assert(order[q] != order[j - 1]);
            }
        }
        assert(pre.state.slots[idx] is None);
        lemma_count_some_update(pre.state.slots, idx, items[idx]);
        assert(count_some(written) == j);
        lemma_count_some_bounds(written);
        assert forall|t: int| 0 <= t < n implies written[t] == (if appears_before(
            order,
            j,
            t,
        ) {
            Some(items[t])
        } else {
            None::<ValModel>
        }) by {
            if t == idx {
                assert(order[j - 1] == t);
                assert(appears_before(order, j, t));
            } else {
                assert(written[t] == pre.state.slots[t]);
                if appears_before(order, j, t) {
                    let q = choose|q: int| 0 <= q < j && order[q] == t;
                    assert(q < j - 1);
                    assert(appears_before(order, j - 1, t));
                } else {
                    if appears_before(order, j - 1, t) {
                        let q = choose|q: int| 0 <= q < j - 1 && order[q] == t;
                        assert(appears_before(order, j, t));
                    }
                }
            }
        }
        if j == n {
            assert(all_filled(written));
            assert(popped_key(kj) == k) by {
                assert(kj.1.drop_last() =~= k.1);
            }
            assert forall|t: int| 0 <= t < n implies filled_with_unit(written)[t]
                == items[t] by {
                assert(written[t] is Some);
                assert(written[t] == Some(items[t]));
            }
            assert(filled_with_unit(written) =~= items);
            assert(collect_run(idle_state(), h).emits =~= seq![(k, ValModel::List(items))]);
        } else {
            assert(!all_filled(written));
            assert(collect_run(idle_state(), h).emits =~= Seq::<(
                CanonicalKey,
                ValModel,
            )>::empty());
        }
    }
}

/// Round trip under any delivery order: fanning a non-empty list out and
/// collecting the emitted run in any permutation of its emission order,
/// starting from an idle fan-in, emits exactly one aggregate — the original
/// list, under the original key — and leaves the fan-in idle again.
pub proof fn lemma_map_collect_round_trip_any_order(
    k: CanonicalKey,
    items: Seq<ValModel>,
    order: Seq<int>,
)
    requires
        1 <= items.len() <= usize::MAX,
        order.len() == items.len(),
        forall|q: int| 0 <= q < order.len() ==> 0 <= #[trigger] order[q] < items.len(),
        forall|q1: int, q2: int| 0 <= q1 < q2 < order.len() ==> order[q1] != order[q2],
    ensures
        ({
            let arr = fan_out_model(k, ValModel::List(items));
            let h = Seq::new(order.len(), |q: int| arr[order[q]]);
            let o = collect_run(idle_state(), h);
            &&& o.ok
            &&& o.state == idle_state()
            &&& o.emits == seq![(k, ValModel::List(items))]
        }),
{
    lemma_round_trip_prefix(k, items, order, items.len() as int);
}

/// Round trip: fanning a non-empty list out and collecting the emitted run
/// in order, starting from an idle fan-in, emits exactly one aggregate: the
/// original list, under the original key, and leaves the fan-in idle again.
/// (An empty list emits zero items at fan-out, so the fan-in never runs and
/// nothing is reassembled; a non-list value round-trips as the singleton
/// list holding it.)
pub proof fn lemma_map_collect_round_trip(k: CanonicalKey, items: Seq<ValModel>)
    requires
        1 <= items.len() <= usize::MAX,
    ensures
        ({
            let o = collect_run(idle_state(), fan_out_model(k, ValModel::List(items)));
            &&& o.ok
            &&& o.state == idle_state()
            &&& o.emits == seq![(k, ValModel::List(items))]
        }),
{
    let arr = fan_out_model(k, ValModel::List(items));
    let order = Seq::new(items.len(), |q: int| q);
    lemma_map_collect_round_trip_any_order(k, items, order);
    assert(Seq::new(order.len(), |q: int| arr[order[q]]) =~= arr);
}


} // verus!
