//! The slot-based synchronizer: one slot per port, keyed by the run
//! identifier alone. A new run identifier clears the slots; each arrival
//! fills its port's slot (overwrite wins); once every slot is full, all
//! values are taken and emitted together, in port order. An arrival on an
//! unrecognized pin is a hard value error, rejected before any state
//! changes.

use vstd::prelude::*;

use crate::collect::{all_filled, filled_with_unit, lemma_slots_model, slots_model};
use crate::errors::EngineError;
use crate::ports::{find_in_port, in_port_of};
use crate::value::{seq_model, ValModel, Value};

verus! {

/// A slot-based synchronizer instance.
pub struct SlotSync {
    n: usize,
    slots: Vec<Option<Value>>,
    current_id: u64,
}

impl SlotSync {
    /// The number of ports.
    pub closed spec fn ports(self) -> int {
        self.n as int
    }

    /// The run identifier of the values currently held.
    pub closed spec fn id(self) -> u64 {
        self.current_id
    }

    /// The slot contents, per port.
    pub closed spec fn slots_view(self) -> Seq<Option<ValModel>> {
        slots_model(self.slots@)
    }

    /// Internal consistency: one slot per port.
    pub closed spec fn wf(self) -> bool {
        self.slots@.len() == self.n
    }

    /// A synchronizer over `n` ports, with all slots empty.
    pub fn new_with_n(n: usize) -> (r: SlotSync)
        ensures
            r.wf(),
            r.ports() == n,
            r.id() == 0,
            r.slots_view() == Seq::new(n as nat, |i: int| None::<ValModel>),
    {
        broadcast use lemma_slots_model;

        let mut slots: Vec<Option<Value>> = Vec::new();
        let mut i: usize = 0;
        while i < n
            invariant
                i <= n,
                slots@.len() == i,
                forall|j: int| 0 <= j < i ==> (#[trigger] slots@[j]) is None,
            decreases n - i,
        {
            slots.push(None);
            i = i + 1;
        }
        let r = SlotSync { n, slots, current_id: 0 };
        proof {
            assert(r.slots_view() =~= Seq::new(n as nat, |i: int| None::<ValModel>));
        }
        r
    }

    /// Processes one arrival. An unrecognized pin is a hard value error and
    /// nothing changes. Otherwise a changed run identifier clears the slots
    /// first, the value fills its port's slot, and a full house empties the
    /// slots and returns all values in port order; an empty list means the
    /// synchronizer is still waiting.
    pub fn process_impl(&mut self, ctx_id: u64, pin: &str, value: Value) -> (r: Result<
        Vec<Value>,
        EngineError,
    >)
        requires
            old(self).wf(),
        ensures
            final(self).wf(),
            final(self).ports() == old(self).ports(),
            match r {
                Err(e) => {
                    &&& in_port_of(pin@, old(self).ports()) is None
                    &&& e.is_value()
                    &&& final(self).id() == old(self).id()
                    &&& final(self).slots_view() == old(self).slots_view()
                },
                Ok(out) => in_port_of(pin@, old(self).ports()) matches Some(port) && {
                    let base = if ctx_id == old(self).id() {
                        old(self).slots_view()
                    } else {
                        Seq::new(old(self).ports() as nat, |i: int| None::<ValModel>)
                    };
                    let written = base.update(port, Some(value.model()));
                    &&& final(self).id() == ctx_id
                    &&& if all_filled(written) {
                        &&& seq_model(out@) == filled_with_unit(written)
                        &&& final(self).slots_view() == Seq::new(
                            old(self).ports() as nat,
                            |i: int| None::<ValModel>,
                        )
                    } else {
                        &&& out@.len() == 0
                        &&& final(self).slots_view() == written
                    }
                },
            },
    {
        broadcast use lemma_slots_model;

        let n = self.n;
        let port = match find_in_port(pin, n) {
            Some(p) => p,
            None => {
                return Err(EngineError::InvalidValue(String::from_str(
                    "unrecognized input pin",
                )));
            },
        };

        if ctx_id != self.current_id {
            self.current_id = ctx_id;
            let mut fresh: Vec<Option<Value>> = Vec::new();
            let mut i: usize = 0;
            while i < n
                invariant
                    i <= n,
                    fresh@.len() == i,
                    forall|j: int| 0 <= j < i ==> (#[trigger] fresh@[j]) is None,
                decreases n - i,
            {
                fresh.push(None);
                i = i + 1;
            }
            self.slots = fresh;
            proof {
                assert(slots_model(self.slots@) =~= Seq::new(
                    old(self).ports() as nat,
                    |i: int| None::<ValModel>,
                ));
            }
        }
        let ghost base = slots_model(self.slots@);

        self.slots.remove(port);
        self.slots.insert(port, Some(value));
        proof {
            assert(slots_model(self.slots@) =~= base.update(port as int, Some(value.model())));
        }
        let ghost written = slots_model(self.slots@);

        // Are all slots present?
        let mut missing = false;
        let mut i: usize = 0;
        while i < self.slots.len()
            invariant
                i <= self.slots@.len(),
                missing == exists|j: int| 0 <= j < i && (#[trigger] self.slots@[j]) is None,
            decreases self.slots@.len() - i,
        {
            if self.slots[i].is_none() {
                missing = true;
            }
            i = i + 1;
        }
        if missing {
            proof {
                let jw = choose|j: int|
                    0 <= j < self.slots@.len() && (#[trigger] self.slots@[j]) is None;
                assert(written[jw] is None);
                assert(!all_filled(written));
            }
            Ok(Vec::new())
        } else {
            proof {
                assert forall|j: int| 0 <= j < written.len() implies (#[trigger] written[j])
                    is Some by {
                    assert(!(self.slots@[j] is None));
                }
                assert(all_filled(written));
            }
            let mut taken: Vec<Option<Value>> = Vec::new();
            core::mem::swap(&mut self.slots, &mut taken);
            let out = crate::collect::drain_input_values(taken);
            let mut fresh: Vec<Option<Value>> = Vec::new();
            let mut i: usize = 0;
            while i < n
                invariant
                    i <= n,
                    fresh@.len() == i,
                    forall|j: int| 0 <= j < i ==> (#[trigger] fresh@[j]) is None,
                decreases n - i,
            {
                fresh.push(None);
                i = i + 1;
            }
            self.slots = fresh;
            proof {
                assert(slots_model(self.slots@) =~= Seq::new(
                    old(self).ports() as nat,
                    |i: int| None::<ValModel>,
                ));
            }
            Ok(out)
        }
    }
}

} // verus!
