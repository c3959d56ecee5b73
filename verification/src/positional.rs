//! The positional join: one FIFO queue per port, aligned by arrival order
//! alone. After every arrival, if every queue is non-empty the heads are
//! popped simultaneously and emitted as one aligned tuple. Output tuple `k`
//! always pairs the `k`-th value ever received on each port, regardless of
//! cross-port arrival order; no correlation by content is attempted.

use vstd::prelude::*;

use crate::errors::EngineError;
use crate::value::{lemma_seq_model, seq_model, ValModel, Value};

verus! {

broadcast use lemma_seq_model;

/// The abstract state of a positional join: the pending queue contents per
/// port, and every tuple emitted so far, in order.
#[verifier::ext_equal]
pub struct PosState {
    pub queues: Seq<Seq<ValModel>>,
    pub emitted: Seq<Seq<ValModel>>,
}

/// The initial state for `n` ports: empty queues, nothing emitted.
pub open spec fn pos_init(n: int) -> PosState {
    PosState { queues: Seq::new(n as nat, |i: int| Seq::empty()), emitted: Seq::empty() }
}

/// One step of the positional machine: append the value to port `p`'s queue;
/// if every queue is then non-empty, pop all heads simultaneously and emit
/// them as one tuple.
pub open spec fn pos_step(s: PosState, p: int, m: ValModel) -> PosState {
    let q1 = s.queues.update(p, s.queues[p].push(m));
    if forall|i: int| 0 <= i < q1.len() ==> (#[trigger] q1[i]).len() > 0 {
        PosState {
            queues: Seq::new(q1.len(), |i: int| q1[i].drop_first()),
            emitted: s.emitted.push(Seq::new(q1.len(), |i: int| q1[i][0])),
        }
    } else {
        PosState { queues: q1, emitted: s.emitted }
    }
}

/// The state after processing a whole arrival history from the initial
/// state; an arrival is a (port, value) pair.
pub open spec fn pos_run(n: int, h: Seq<(int, ValModel)>) -> PosState
    decreases h.len(),
{
    if h.len() == 0 {
        pos_init(n)
    } else {
        pos_step(pos_run(n, h.drop_last()), h.last().0, h.last().1)
    }
}

/// The values a history delivers to port `p`, in arrival order.
pub open spec fn port_arrivals(h: Seq<(int, ValModel)>, p: int) -> Seq<ValModel>
    decreases h.len(),
{
    if h.len() == 0 {
        Seq::empty()
    } else {
        let pre = port_arrivals(h.drop_last(), p);
        if h.last().0 == p {
            pre.push(h.last().1)
        } else {
            pre
        }
    }
}

/// A positional join instance over a fixed number of ports.
pub struct PositionalJoin {
    n: usize,
    queues: Vec<Vec<Value>>,
}

impl PositionalJoin {
    /// The number of ports.
    pub closed spec fn ports(self) -> int {
        self.n as int
    }

    /// The pending queue contents, per port.
    pub closed spec fn queues_model(self) -> Seq<Seq<ValModel>> {
        Seq::new(self.queues@.len(), |i: int| seq_model(self.queues@[i]@))
    }

    /// Internal consistency: one queue per port, at least one port.
    pub closed spec fn wf(self) -> bool {
        self.queues@.len() == self.n && self.n >= 1
    }

    /// Well-formedness implies one queue per port.
    pub proof fn lemma_wf_len(self)
        requires
            self.wf(),
        ensures
            self.queues_model().len() == self.ports(),
            self.ports() >= 1,
    {
    }

    /// A join over `n` ports; fewer than one port is a configuration error.
    pub fn new(n: usize) -> (r: Result<PositionalJoin, EngineError>)
        ensures
            match r {
                Ok(j) => n >= 1 && j.wf() && j.ports() == n && j.queues_model() == pos_init(
                    n as int,
                ).queues,
                Err(e) => n < 1 && e.is_config(),
            },
    {
        if n < 1 {
            return Err(EngineError::InvalidConfig(String::from_str("n must be at least 1")));
        }
        let mut queues: Vec<Vec<Value>> = Vec::new();
        let mut i: usize = 0;
        while i < n
            invariant
                i <= n,
                queues@.len() == i,
                forall|j: int| 0 <= j < i ==> (#[trigger] queues@[j])@.len() == 0,
            decreases n - i,
        {
            queues.push(Vec::new());
            i = i + 1;
        }
        let j = PositionalJoin { n, queues };
        proof {
            assert(j.queues_model() =~~= pos_init(n as int).queues);
        }
        Ok(j)
    }

    /// Empties all queues, discarding any pending values; used on stop and
    /// whenever the configuration changes structurally.
    pub fn reset(&mut self)
        requires
            old(self).wf(),
        ensures
            final(self).wf(),
            final(self).ports() == old(self).ports(),
            final(self).queues_model() == pos_init(old(self).ports()).queues,
    {
        let n = self.n;
        let mut queues: Vec<Vec<Value>> = Vec::new();
        let mut i: usize = 0;
        while i < n
            invariant
                i <= n,
                queues@.len() == i,
                forall|j: int| 0 <= j < i ==> (#[trigger] queues@[j])@.len() == 0,
            decreases n - i,
        {
            queues.push(Vec::new());
            i = i + 1;
        }
        self.queues = queues;
        proof {
            assert(final(self).queues_model() =~~= pos_init(old(self).ports()).queues);
        }
    }

    /// Processes the arrival of `value` on `port` (0-based). Appends it to
    /// the port's queue and, when every queue is non-empty, pops all heads
    /// and returns them as the aligned tuple, in port order. An unknown port
    /// is a value error and leaves the state unchanged.
    pub fn push(&mut self, port: usize, value: Value) -> (r: Result<
        Option<Vec<Value>>,
        EngineError,
    >)
        requires
            old(self).wf(),
        ensures
            final(self).wf(),
            final(self).ports() == old(self).ports(),
            ({
                let s0 = PosState { queues: old(self).queues_model(), emitted: Seq::empty() };
                let s1 = pos_step(s0, port as int, value.model());
                match r {
                    Ok(out) => port < old(self).ports() && final(self).queues_model()
                        == s1.queues && match out {
                        Some(tuple) => s1.emitted.len() == 1 && seq_model(tuple@)
                            == s1.emitted[0],
                        None => s1.emitted.len() == 0,
                    },
                    Err(e) => port >= old(self).ports() && e.is_value()
                        && final(self).queues_model() == old(self).queues_model(),
                }
            }),
    {
        let ghost s0 = PosState { queues: self.queues_model(), emitted: Seq::empty() };
        if port >= self.queues.len() {
            proof {
                assert(final(self).queues_model() =~~= old(self).queues_model());
            }
            return Err(EngineError::InvalidValue(String::from_str("unrecognized input port")));
        }
        let ghost before = self.queues@;
        let mut q = self.queues.remove(port);
        q.push(value);
        self.queues.insert(port, q);
        proof {
            assert(self.queues@ =~= before.update(port as int, self.queues@[port as int]));
            assert(seq_model(self.queues@[port as int]@) =~= seq_model(before[port as int]@).push(
                value.model(),
            ));
            assert(self.queues_model() =~~= s0.queues.update(
                port as int,
                s0.queues[port as int].push(value.model()),
            ));
        }
        let ghost q1 = s0.queues.update(port as int, s0.queues[port as int].push(value.model()));

        // Is some queue still empty?
        let mut empty_found = false;
        let mut i: usize = 0;
        while i < self.queues.len()
            invariant
                i <= self.queues@.len(),
                empty_found == exists|j: int|
                    0 <= j < i && (#[trigger] self.queues@[j])@.len() == 0,
            decreases self.queues@.len() - i,
        {
            if self.queues[i].len() == 0 {
                empty_found = true;
            }
            i = i + 1;
        }
        if empty_found {
            proof {
                let jw = choose|j: int|
                    0 <= j < self.queues@.len() && (#[trigger] self.queues@[j])@.len() == 0;
                assert(q1[jw].len() == 0);
                assert(!(forall|i: int| 0 <= i < q1.len() ==> (#[trigger] q1[i]).len() > 0));
            }
            return Ok(None);
        }
        proof {
            assert forall|i: int| 0 <= i < q1.len() implies (#[trigger] q1[i]).len() > 0 by {
                assert(self.queues@[i]@.len() > 0);
            }
        }

        // All queues are non-empty: pop every head into the aligned tuple.
        let ghost mid = self.queues@;
        let mut out: Vec<Value> = Vec::new();
        let mut i: usize = 0;
        while i < self.queues.len()
            invariant
                i <= self.queues@.len(),
                self.queues@.len() == mid.len(),
                self.n == old(self).n,
                out@.len() == i,
                forall|j: int| 0 <= j < mid.len() ==> (#[trigger] mid[j])@.len() > 0,
                forall|j: int| i <= j < mid.len() ==> (#[trigger] self.queues@[j]) == mid[j],
                forall|j: int| 0 <= j < i ==> (#[trigger] self.queues@[j])@ == mid[j]@.drop_first(),
                forall|j: int| 0 <= j < i ==> (#[trigger] out@[j]) == mid[j]@[0],
            decreases self.queues@.len() - i,
    {
            let ghost cur = self.queues@;
            let mut q = self.queues.remove(i);
            let v = q.remove(0);
            out.push(v);
            self.queues.insert(i, q);
            proof {
                assert(self.queues@ =~= cur.update(i as int, self.queues@[i as int]));
                assert(self.queues@[i as int]@ =~= mid[i as int]@.drop_first());
            }
            i = i + 1;
        }
        proof {
            let s1 = pos_step(s0, port as int, value.model());
            assert(final(self).queues_model() =~~= s1.queues);
            assert(seq_model(out@) =~= s1.emitted[0]);
        }
        Ok(Some(out))
    }
}

/// Positional join determinism: whatever the interleaving of arrivals across
/// ports, the machine has emitted exactly as many tuples as the most starved
/// port has delivered values, tuple `j` pairs the `j`-th value delivered on
/// each port, and each queue holds exactly the values its port delivered
/// beyond those already emitted.
pub proof fn lemma_positional_determinism(n: int, h: Seq<(int, ValModel)>)
    requires
        n >= 1,
        forall|j: int| 0 <= j < h.len() ==> 0 <= (#[trigger] h[j]).0 < n,
    ensures
        ({
            let s = pos_run(n, h);
            &&& s.queues.len() == n
            &&& forall|i: int| 0 <= i < n ==> s.emitted.len() <= port_arrivals(h, i).len()
            &&& exists|i: int| 0 <= i < n && s.emitted.len() == port_arrivals(h, i).len()
            &&& forall|j: int, i: int|
                #![trigger s.emitted[j], port_arrivals(h, i)]
                0 <= j < s.emitted.len() && 0 <= i < n ==> s.emitted[j].len() == n
                    && s.emitted[j][i] == port_arrivals(h, i)[j]
            &&& forall|i: int| 0 <= i < n ==> (#[trigger] s.queues[i]) == port_arrivals(
                h,
                i,
            ).skip(s.emitted.len() as int)
        }),
    decreases h.len(),
{
    let s = pos_run(n, h);
    if h.len() == 0 {
        assert(port_arrivals(h, 0).len() == 0);
        assert forall|i: int| 0 <= i < n implies (#[trigger] s.queues[i]) == port_arrivals(
            h,
            i,
        ).skip(0) by {
            assert(s.queues[i] =~= port_arrivals(h, i).skip(0));
        }
    } else {
        let hp = h.drop_last();
        let p = h.last().0;
        let m = h.last().1;
        lemma_positional_determinism(n, hp);
        let s0 = pos_run(n, hp);
        let e = s0.emitted.len() as int;
        let q1 = s0.queues.update(p, s0.queues[p].push(m));
        assert(forall|i: int| 0 <= i < n && i != p ==> port_arrivals(h, i) == port_arrivals(
            hp,
            i,
        ));
        assert(port_arrivals(h, p) == port_arrivals(hp, p).push(m));
        assert forall|i: int| 0 <= i < n implies (#[trigger] q1[i]) == port_arrivals(h, i).skip(
            e,
        ) by {
            if i == p {
                assert(q1[p] == port_arrivals(hp, p).skip(e).push(m));
                assert(port_arrivals(hp, p).skip(e).push(m) =~= port_arrivals(h, p).skip(e));
            }
        }
        if forall|i: int| 0 <= i < q1.len() ==> (#[trigger] q1[i]).len() > 0 {
            // every queue is non-empty: a tuple is emitted
            assert(s.emitted == s0.emitted.push(Seq::new(q1.len(), |i: int| q1[i][0])));
            assert forall|j: int, i: int|
                #![trigger s.emitted[j], port_arrivals(h, i)]
                0 <= j < s.emitted.len() && 0 <= i < n implies s.emitted[j].len() == n
                    && s.emitted[j][i] == port_arrivals(h, i)[j] by {
                if j < e {
                    assert(s.emitted[j] == s0.emitted[j]);
                    assert(port_arrivals(hp, i)[j] == port_arrivals(h, i)[j]);
                } else {
                    assert(s.emitted[j] == Seq::new(q1.len(), |i: int| q1[i][0]));
                    assert(q1[i][0] == port_arrivals(h, i).skip(e)[0]);
                }
            }
            assert forall|i: int| 0 <= i < n implies (#[trigger] s.queues[i]) == port_arrivals(
                h,
                i,
            ).skip(s.emitted.len() as int) by {
                assert(s.queues[i] == q1[i].drop_first());
                assert(q1[i].drop_first() =~= port_arrivals(h, i).skip(e + 1));
            }
            assert forall|i: int| 0 <= i < n implies s.emitted.len() <= (#[trigger] port_arrivals(
                h,
                i,
            )).len() by {
                assert(q1[i].len() > 0);
                assert(port_arrivals(h, i).len() - e > 0);
            }
            // the port that was most starved must have been p itself
            let i0 = choose|i: int| 0 <= i < n && e == port_arrivals(hp, i).len();
            assert(port_arrivals(h, p).len() == port_arrivals(hp, p).len() + 1);
            if i0 != p {
                assert(q1[i0] == port_arrivals(h, i0).skip(e));
                assert(q1[i0].len() == 0);
                assert(false);
            }
            assert(port_arrivals(h, p).len() == e + 1);
            assert(exists|i: int| 0 <= i < n && s.emitted.len() == (#[trigger] port_arrivals(
                h,
                i,
            )).len());
        } else {
            // some queue is still empty: nothing is emitted
            assert(s.queues == q1);
            assert(s.emitted == s0.emitted);
            let iw = choose|i: int| 0 <= i < q1.len() && !((#[trigger] q1[i]).len() > 0);
            assert(q1[p].len() > 0);
            assert(iw != p);
            assert(port_arrivals(h, iw).len() == e);
            assert(exists|i: int| 0 <= i < n && s.emitted.len() == (#[trigger] port_arrivals(
                h,
                i,
            )).len());
            assert forall|j: int, i: int|
                #![trigger s.emitted[j], port_arrivals(h, i)]
                0 <= j < s.emitted.len() && 0 <= i < n implies s.emitted[j].len() == n
                    && s.emitted[j][i] == port_arrivals(h, i)[j] by {
                assert(s.emitted[j] == s0.emitted[j]);
                assert(port_arrivals(hp, i)[j] == port_arrivals(h, i)[j]);
            }
        }
    }
}

/// The balanced corollary: when every port has delivered exactly `c` values,
/// exactly `c` tuples have been emitted, the queues are empty again, and
/// tuple `j` pairs the `j`-th value delivered on each port.
pub proof fn lemma_positional_balanced(n: int, h: Seq<(int, ValModel)>, c: int)
    requires
        n >= 1,
        forall|j: int| 0 <= j < h.len() ==> 0 <= (#[trigger] h[j]).0 < n,
        forall|i: int| 0 <= i < n ==> (#[trigger] port_arrivals(h, i)).len() == c,
    ensures
        ({
            let s = pos_run(n, h);
            &&& s.emitted.len() == c
            &&& forall|j: int, i: int|
                #![trigger s.emitted[j], port_arrivals(h, i)]
                0 <= j < c && 0 <= i < n ==> s.emitted[j][i] == port_arrivals(h, i)[j]
            &&& forall|i: int| 0 <= i < n ==> (#[trigger] s.queues[i]).len() == 0
        }),
{
    lemma_positional_determinism(n, h);
    let s = pos_run(n, h);
    let i0 = choose|i: int| 0 <= i < n && s.emitted.len() == port_arrivals(h, i).len();
    assert(s.emitted.len() == c);
}

} // verus!
