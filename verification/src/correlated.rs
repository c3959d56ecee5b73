//! The queue-based context-correlated join: per-port FIFO queues of
//! `(key, value)` entries, matched by canonical key rather than by arrival
//! order. When every queue is non-empty the scanner looks for the first
//! common key; entries queued before the matched position in each queue are
//! discarded — their partners never arrived in time relative to this match —
//! and the matched entries are emitted as one aligned tuple.

use vstd::prelude::*;

use crate::errors::EngineError;
use crate::scanner::{
    base_of, contains_key, find_first_common_key, first_pos, is_common, lemma_base_of,
    lemma_first_pos, queues_keys,
};
use crate::token::{CanonicalKey, ContextToken};
use crate::value::{ValModel, Value};

verus! {

/// The `(key, value model)` entries of every queue, queue by queue.
pub open spec fn entries_view(qs: Seq<Vec<(ContextToken, Value)>>) -> Seq<
    Seq<(CanonicalKey, ValModel)>,
> {
    Seq::new(
        qs.len(),
        |i: int|
            Seq::new(qs[i]@.len(), |j: int| (qs[i]@[j].0.key(), qs[i]@[j].1.model())),
    )
}

/// The keys of one abstract queue, in order.
pub open spec fn keys_of(q: Seq<(CanonicalKey, ValModel)>) -> Seq<CanonicalKey> {
    Seq::new(q.len(), |j: int| q[j].0)
}

/// The keys of every abstract queue, queue by queue.
pub open spec fn keys_view(e: Seq<Seq<(CanonicalKey, ValModel)>>) -> Seq<Seq<CanonicalKey>> {
    Seq::new(e.len(), |i: int| keys_of(e[i]))
}

/// The position of the first key of `q` that is common to every queue of
/// `kq`, or `-1` when no key of `q` is.
pub open spec fn first_common_pos(kq: Seq<Seq<CanonicalKey>>, q: Seq<CanonicalKey>) -> int
    decreases q.len(),
{
    if q.len() == 0 {
        -1
    } else if is_common(kq, q[0]) {
        0
    } else {
        let rest = first_common_pos(kq, q.drop_first());
        if rest < 0 {
            -1
        } else {
            rest + 1
        }
    }
}

/// `first_common_pos` finds exactly the first common key.
pub broadcast proof fn lemma_first_common_pos(kq: Seq<Seq<CanonicalKey>>, q: Seq<CanonicalKey>)
    ensures
        #[trigger] first_common_pos(kq, q) < 0 ==> forall|p: int|
            0 <= p < q.len() ==> !is_common(kq, #[trigger] q[p]),
        first_common_pos(kq, q) >= 0 ==> {
            &&& first_common_pos(kq, q) < q.len()
            &&& is_common(kq, q[first_common_pos(kq, q)])
            &&& forall|p: int| 0 <= p < first_common_pos(kq, q) ==> !is_common(
                kq,
                #[trigger] q[p],
            )
        },
    decreases q.len(),
{
    if q.len() > 0 {
        lemma_first_common_pos(kq, q.drop_first());
        let rest = first_common_pos(kq, q.drop_first());
        if is_common(kq, q[0]) {
        } else if rest < 0 {
            assert forall|p: int| 0 <= p < q.len() implies !is_common(kq, #[trigger] q[p]) by {
                if p > 0 {
                    assert(q.drop_first()[p - 1] == q[p]);
                    assert(!is_common(kq, q.drop_first()[p - 1]));
                }
            }
        } else {
            assert(q.drop_first()[rest] == q[rest + 1]);
            assert forall|p: int| 0 <= p < rest + 1 implies !is_common(kq, #[trigger] q[p]) by {
                if p > 0 {
                    assert(q.drop_first()[p - 1] == q[p]);
                    assert(!is_common(kq, q.drop_first()[p - 1]));
                }
            }
        }
    }
}

/// A context-correlated join instance over a fixed number of ports, in its
/// queue-based form: conceptually simple, but unbounded by construction —
/// the cache-based form bounds memory instead.
pub struct CorrelatedJoin {
    n: usize,
    queues: Vec<Vec<(ContextToken, Value)>>,
}

impl CorrelatedJoin {
    /// The number of ports.
    pub closed spec fn ports(self) -> int {
        self.n as int
    }

    /// The pending `(key, value)` entries, per port.
    pub closed spec fn entries(self) -> Seq<Seq<(CanonicalKey, ValModel)>> {
        entries_view(self.queues@)
    }

    /// Internal consistency: one queue per port, at least one port.
    pub closed spec fn wf(self) -> bool {
        self.queues@.len() == self.n && self.n >= 1
    }

    /// Well-formedness implies one queue per port.
    pub proof fn lemma_wf_len(self)
        requires
            self.wf(),
        ensures
            self.entries().len() == self.ports(),
            self.ports() >= 1,
    {
    }

    /// A join over `n` ports; fewer than one port is a configuration error.
    pub fn new(n: usize) -> (r: Result<CorrelatedJoin, EngineError>)
        ensures
            match r {
                Ok(j) => n >= 1 && j.wf() && j.ports() == n && j.entries() == Seq::new(
                    n as nat,
                    |i: int| Seq::<(CanonicalKey, ValModel)>::empty(),
                ),
                Err(e) => n < 1 && e.is_config(),
            },
    {
        if n < 1 {
            return Err(EngineError::InvalidConfig(String::from_str("n must be at least 1")));
        }
        let mut queues: Vec<Vec<(ContextToken, Value)>> = Vec::new();
        let mut i: usize = 0;
        while i < n
            invariant
                i <= n,
                queues@.len() == i,
                forall|j: int| 0 <= j < i ==> (#[trigger] queues@[j])@.len() == 0,
            decreases n - i,
        {
            queues.push(Vec::new());
            i = i + 1;
        }
        let j = CorrelatedJoin { n, queues };
        proof {
            assert(j.entries() =~~= Seq::new(
                n as nat,
                |i: int| Seq::<(CanonicalKey, ValModel)>::empty(),
            ));
        }
        Ok(j)
    }

    /// Empties all queues, discarding any pending entries.
    pub fn reset(&mut self)
        requires
            old(self).wf(),
        ensures
            final(self).wf(),
            final(self).ports() == old(self).ports(),
            final(self).entries() == Seq::new(
                old(self).ports() as nat,
                |i: int| Seq::<(CanonicalKey, ValModel)>::empty(),
            ),
    {
        let n = self.n;
        let mut queues: Vec<Vec<(ContextToken, Value)>> = Vec::new();
        let mut i: usize = 0;
        while i < n
            invariant
                i <= n,
                queues@.len() == i,
                forall|j: int| 0 <= j < i ==> (#[trigger] queues@[j])@.len() == 0,
            decreases n - i,
        {
            queues.push(Vec::new());
            i = i + 1;
        }
        self.queues = queues;
        proof {
            assert(final(self).entries() =~~= Seq::new(
                old(self).ports() as nat,
                |i: int| Seq::<(CanonicalKey, ValModel)>::empty(),
            ));
        }
    }

    /// Processes the arrival of `value` under `token` on `port` (0-based).
    /// The entry joins the port's queue; when every queue is non-empty and
    /// some key of the scan base is present in every queue, the first such
    /// key is the join target: everything queued strictly before the
    /// target's first occurrence is dropped from each queue, the matched
    /// entries are popped, and their values are returned in port order.
    pub fn push(&mut self, port: usize, token: ContextToken, value: Value) -> (r: Result<
        Option<Vec<Value>>,
        EngineError,
    >)
        requires
            old(self).wf(),
        ensures
            final(self).wf(),
            final(self).ports() == old(self).ports(),
            ({
                let e1 = old(self).entries().update(
                    port as int,
                    old(self).entries()[port as int].push((token.key(), value.model())),
                );
                let kq = keys_view(e1);
                let b = base_of(kq);
                let p = first_common_pos(kq, kq[b]);
                match r {
                    Ok(out) => port < old(self).ports() && {
                        if p < 0 {
                            out is None && final(self).entries() == e1
                        } else {
                            let k = kq[b][p];
                            match out {
                                Some(vals) => {
                                    &&& vals@.len() == e1.len()
                                    &&& forall|i: int| 0 <= i < e1.len()
                                        ==> (#[trigger] vals@[i]).model() == e1[i][first_pos(
                                        kq[i],
                                        k,
                                    )].1
                                    &&& final(self).entries() == Seq::new(
                                        e1.len(),
                                        |i: int| e1[i].skip(first_pos(kq[i], k) + 1),
                                    )
                                },
                                None => false,
                            }
                        }
                    },
                    Err(e) => port >= old(self).ports() && e.is_value() && final(self).entries()
                        == old(self).entries(),
                }
            }),
    {
        broadcast use lemma_first_pos, lemma_first_common_pos;

        if port >= self.queues.len() {
            proof {
                assert(final(self).entries() =~~= old(self).entries());
            }
            return Err(EngineError::InvalidValue(String::from_str("unrecognized input port")));
        }
        let ghost before = self.queues@;
        let mut q = self.queues.remove(port);
        q.push((token, value));
        self.queues.insert(port, q);
        proof {
            assert(self.queues@ =~= before.update(port as int, self.queues@[port as int]));
        }
        let ghost e1 = old(self).entries().update(
            port as int,
            old(self).entries()[port as int].push(
                (self.queues@[port as int]@.last().0.key(), self.queues@[port as int]@.last().1.model()),
            ),
        );
        proof {
            assert(entries_view(self.queues@) =~~= e1);
            assert(keys_view(e1) =~~= queues_keys(self.queues@));
        }
        let ghost kq = keys_view(e1);

        // If some queue is still empty, no key can be common to all queues.
        let mut empty_found = false;
        let mut i: usize = 0;
        while i < self.queues.len()
            invariant
                i <= self.queues@.len(),
                empty_found == exists|j: int|
                    0 <= j < i && (#[trigger] self.queues@[j])@.len() == 0,
            decreases self.queues@.len() - i,
        {
            if self.queues[i].len() == 0 {
                empty_found = true;
            }
            i = i + 1;
        }
        if empty_found {
            proof {
                lemma_base_of(kq);
                let b = base_of(kq);
                let p = first_common_pos(kq, kq[b]);
                if p >= 0 {
                    let jw = choose|j: int|
                        0 <= j < self.queues@.len() && (#[trigger] self.queues@[j])@.len() == 0;
                    assert(kq[jw].len() == 0);
                    assert(is_common(kq, kq[b][p]));
                    assert(contains_key(kq[jw], kq[b][p]));
                    let jj = choose|j2: int| 0 <= j2 < kq[jw].len() && kq[jw][j2] == kq[b][p];
                    assert(false);
                }
                assert(final(self).entries() =~~= e1);
            }
            return Ok(None);
        }

        match find_first_common_key(&self.queues) {
            None => {
                proof {
                    lemma_base_of(kq);
                    let b = base_of(kq);
                    let p = first_common_pos(kq, kq[b]);
                    if p >= 0 {
                        assert(is_common(kq, kq[b][p]));
                        assert(!is_common(kq, queues_keys(self.queues@)[b][p]));
                    }
                    assert(final(self).entries() =~~= e1);
                }
                Ok(None)
            },
            Some(positions) => {
                proof {
                    lemma_base_of(kq);
                    let b = base_of(kq);
                    let p = first_common_pos(kq, kq[b]);
                    let sp = positions@[b] as int;
                    // the scanner's first common position is first_common_pos
                    if p < 0 {
                        assert(!is_common(kq, kq[b][sp]));
                    } else {
                        if p < sp {
                            assert(!is_common(kq, kq[b][p]));
                        }
                        if p > sp {
                            assert(!is_common(kq, kq[b][sp]));
                        }
                    }
                    assert(p == sp);
                }
                let ghost b = base_of(kq);
                let ghost k = kq[b][positions@[b as int] as int];
                let ghost mid = self.queues@;
                let mut out: Vec<Value> = Vec::new();
                let mut i: usize = 0;
                proof {
                    assert(positions@.len() == mid.len());
                    assert forall|j: int| 0 <= j < mid.len() implies positions@[j] + 1 <= (
                    #[trigger] mid[j])@.len() by {
                        assert(positions@[j] == first_pos(kq[j], k));
                        assert(first_pos(kq[j], k) < kq[j].len());
                    }
                }
                while i < self.queues.len()
                    invariant
                        i <= self.queues@.len(),
                        self.queues@.len() == mid.len(),
                        positions@.len() == mid.len(),
                        self.n == old(self).n,
                        out@.len() == i,
                        forall|j: int| 0 <= j < mid.len() ==> positions@[j] + 1 <= (
                        #[trigger] mid[j])@.len(),
                        forall|j: int| i <= j < mid.len() ==> (#[trigger] self.queues@[j])
                            == mid[j],
                        forall|j: int| 0 <= j < i ==> (#[trigger] self.queues@[j])@ == mid[j]@.skip(
                            positions@[j] + 1,
                        ),
                        forall|j: int| 0 <= j < i ==> (#[trigger] out@[j]) == mid[j]@[positions@[j] as int].1,
                    decreases self.queues@.len() - i,
                {
                    let ghost cur = self.queues@;
                    let mut q = self.queues.remove(i);
                    let target = positions[i];
                    let mut d: usize = 0;
                    while d < target
                        invariant
                            d <= target,
                            target + 1 <= mid[i as int]@.len() + 0,
                            q@ == mid[i as int]@.skip(d as int),
                        decreases target - d,
                    {
                        q.remove(0);
                        proof {
                            assert(q@ =~= mid[i as int]@.skip(d + 1));
                        }
                        d = d + 1;
                    }
                    let pair = q.remove(0);
                    out.push(pair.1);
                    self.queues.insert(i, q);
                    proof {
                        assert(self.queues@ =~= cur.update(i as int, self.queues@[i as int]));
                        assert(self.queues@[i as int]@ =~= mid[i as int]@.skip(
                            positions@[i as int] + 1,
                        ));
                        assert(pair == mid[i as int]@[positions@[i as int] as int]);
                    }
                    i = i + 1;
                }
                proof {
                    let p = first_common_pos(kq, kq[b]);
                    assert forall|j: int| 0 <= j < e1.len() implies (#[trigger] out@[j]).model()
                        == e1[j][first_pos(kq[j], k)].1 by {
                        assert(out@[j] == mid[j]@[positions@[j] as int].1);
                    }
                    assert(final(self).entries() =~~= Seq::new(
                        e1.len(),
                        |i: int| e1[i].skip(first_pos(kq[i], k) + 1),
                    ));
                }
                Ok(Some(out))
            },
        }
    }
}

} // verus!
