//! The correlation scanner used by the queue-based context-correlated join:
//! among the per-port queues of `(key, value)` entries, it selects the queue
//! with the fewest entries as the scan base (the earliest among ties), scans
//! it head to tail, and reports the first key present in every queue,
//! together with that key's first position in each queue. The tie-breaks —
//! earliest shortest queue, first occurrence within each queue — are a
//! deliberate, documented design choice.

use vstd::prelude::*;

use crate::token::{CanonicalKey, ContextToken};
use crate::value::Value;

verus! {

/// The canonical keys of a queue's entries, in order.
pub open spec fn entry_keys(s: Seq<(ContextToken, Value)>) -> Seq<CanonicalKey> {
    Seq::new(s.len(), |j: int| s[j].0.key())
}

/// The canonical keys of every queue, queue by queue.
pub open spec fn queues_keys(qs: Seq<Vec<(ContextToken, Value)>>) -> Seq<Seq<CanonicalKey>> {
    Seq::new(qs.len(), |i: int| entry_keys(qs[i]@))
}

/// Whether key `k` occurs anywhere in `q`.
pub open spec fn contains_key(q: Seq<CanonicalKey>, k: CanonicalKey) -> bool {
    exists|j: int| 0 <= j < q.len() && q[j] == k
}

/// Whether key `k` occurs in every queue.
pub open spec fn is_common(qs: Seq<Seq<CanonicalKey>>, k: CanonicalKey) -> bool {
    forall|i: int| 0 <= i < qs.len() ==> contains_key(#[trigger] qs[i], k)
}

/// The position of the first occurrence of `k` in `q`, or `-1` when absent.
pub open spec fn first_pos(q: Seq<CanonicalKey>, k: CanonicalKey) -> int
    decreases q.len(),
{
    if q.len() == 0 {
        -1
    } else if q[0] == k {
        0
    } else {
        let rest = first_pos(q.drop_first(), k);
        if rest < 0 {
            -1
        } else {
            rest + 1
        }
    }
}

/// `first_pos` finds exactly the first occurrence.
pub broadcast proof fn lemma_first_pos(q: Seq<CanonicalKey>, k: CanonicalKey)
    ensures
        #[trigger] first_pos(q, k) < 0 ==> forall|j: int| 0 <= j < q.len() ==> (#[trigger] q[j])
            != k,
        first_pos(q, k) >= 0 ==> {
            &&& first_pos(q, k) < q.len()
            &&& q[first_pos(q, k)] == k
            &&& forall|j: int| 0 <= j < first_pos(q, k) ==> (#[trigger] q[j]) != k
        },
    decreases q.len(),
{
    if q.len() > 0 {
        lemma_first_pos(q.drop_first(), k);
        let rest = first_pos(q.drop_first(), k);
        if q[0] == k {
        } else if rest < 0 {
            assert forall|j: int| 0 <= j < q.len() implies (#[trigger] q[j]) != k by {
                if j > 0 {
                    assert(q.drop_first()[j - 1] == q[j]);
                    assert(q.drop_first()[j - 1] != k);
                }
            }
        } else {
            assert(q.drop_first()[rest] == q[rest + 1]);
            assert forall|j: int| 0 <= j < rest + 1 implies (#[trigger] q[j]) != k by {
                if j > 0 {
                    assert(q.drop_first()[j - 1] == q[j]);
                    assert(q.drop_first()[j - 1] != k);
                }
            }
        }
    }
}

/// The index of the scan base: the queue with the fewest entries, the
/// earliest among ties.
pub open spec fn base_of(qs: Seq<Seq<CanonicalKey>>) -> int
    decreases qs.len(),
{
    if qs.len() <= 1 {
        0
    } else {
        let b = base_of(qs.drop_last());
        if qs.last().len() < qs[b].len() {
            qs.len() - 1
        } else {
            b
        }
    }
}

/// The scan base is in range, no queue is shorter, and every earlier queue
/// is strictly longer.
pub broadcast proof fn lemma_base_of(qs: Seq<Seq<CanonicalKey>>)
    requires
        qs.len() >= 1,
    ensures
        0 <= #[trigger] base_of(qs) < qs.len(),
        forall|i: int| 0 <= i < qs.len() ==> qs[base_of(qs)].len() <= (#[trigger] qs[i]).len(),
        forall|i: int| 0 <= i < base_of(qs) ==> (#[trigger] qs[i]).len() > qs[base_of(qs)].len(),
    decreases qs.len(),
{
    if qs.len() > 1 {
        lemma_base_of(qs.drop_last());
        assert(forall|i: int| 0 <= i < qs.len() - 1 ==> qs.drop_last()[i] == qs[i]);
    }
}

/// Finds the first position of `key`'s canonical key in `q`, if any.
fn find_key_pos(q: &Vec<(ContextToken, Value)>, key: &ContextToken) -> (r: Option<usize>)
    ensures
        match r {
            Some(p) => first_pos(entry_keys(q@), key.key()) == p,
            None => first_pos(entry_keys(q@), key.key()) < 0,
        },
{
    broadcast use lemma_first_pos;

    let ghost ks = entry_keys(q@);
    let mut pos: usize = 0;
    let mut found = false;
    while pos < q.len() && !found
        invariant
            pos <= q@.len(),
            ks == entry_keys(q@),
            !found ==> forall|j: int| 0 <= j < pos ==> (#[trigger] ks[j]) != key.key(),
            found ==> pos < q@.len() && ks[pos as int] == key.key() && forall|j: int|
                0 <= j < pos ==> (#[trigger] ks[j]) != key.key(),
        decreases q@.len() - pos + (if found { 0int } else { 1int }),
    {
        if q[pos].0.same_key(key) {
            found = true;
        } else {
            pos = pos + 1;
        }
    }
    if found {
        proof {
            let fp = first_pos(ks, key.key());
            assert(fp >= 0);
            if fp < pos {
                assert(ks[fp] != key.key());
            }
            if fp > pos {
                assert(ks[pos as int] != key.key());
            }
        }
        Some(pos)
    } else {
        proof {
            let fp = first_pos(ks, key.key());
            if fp >= 0 {
                assert(ks[fp] == key.key());
                assert(ks[fp] != key.key());
            }
        }
        None
    }
}

/// Scans for the first key, in base-queue head-to-tail order, that is
/// present in every queue. Returns, for each queue, the position of that
/// key's first occurrence; `None` when no key of the base queue is common to
/// all queues (in particular whenever any queue is empty).
pub fn find_first_common_key(queues: &Vec<Vec<(ContextToken, Value)>>) -> (r: Option<Vec<usize>>)
    requires
        queues@.len() >= 1,
    ensures
        ({
            let qs = queues_keys(queues@);
            let b = base_of(qs);
            match r {
                Some(pos) => {
                    &&& pos@.len() == qs.len()
                    &&& 0 <= pos@[b] < qs[b].len()
                    &&& is_common(qs, qs[b][pos@[b] as int])
                    &&& forall|p2: int| 0 <= p2 < pos@[b] ==> !is_common(qs, qs[b][p2])
                    &&& forall|i: int| 0 <= i < qs.len() ==> pos@[i] == first_pos(
                        #[trigger] qs[i],
                        qs[b][pos@[b] as int],
                    )
                },
                None => forall|p: int| 0 <= p < qs[b].len() ==> !is_common(qs, qs[b][p]),
            }
        }),
{
    broadcast use lemma_first_pos;

    let ghost qs = queues_keys(queues@);
    proof {
        lemma_base_of(qs);
    }
    let n = queues.len();

    // Select the scan base: fewest entries, earliest among ties.
    let mut b: usize = 0;
    let mut i: usize = 1;
    while i < n
        invariant
            n == queues@.len(),
            qs == queues_keys(queues@),
            0 <= b < i <= n,
            forall|j: int| 0 <= j < i ==> qs[b as int].len() <= (#[trigger] qs[j]).len(),
            forall|j: int| 0 <= j < b ==> (#[trigger] qs[j]).len() > qs[b as int].len(),
        decreases n - i,
    {
        if queues[i].len() < queues[b].len() {
            b = i;
        }
        i = i + 1;
    }
    proof {
        lemma_base_of(qs);
        let b0 = base_of(qs);
        if b0 < b {
            assert(qs[b0].len() > qs[b as int].len());
            assert(qs[b as int].len() >= qs[b0].len());
            assert(false);
        }
        if b0 > b {
            assert(qs[b as int].len() > qs[b0].len());
            assert(qs[b0].len() >= qs[b as int].len());
            assert(false);
        }
        assert(b == base_of(qs));
    }

    // Scan the base queue head to tail for the first common key.
    let mut p: usize = 0;
    while p < queues[b].len()
        invariant
            n == queues@.len(),
            qs == queues_keys(queues@),
            0 <= b < n,
            b == base_of(qs),
            p <= qs[b as int].len(),
            qs[b as int].len() == queues@[b as int]@.len(),
            forall|p2: int| 0 <= p2 < p ==> !is_common(qs, qs[b as int][p2]),
        decreases qs[b as int].len() - p,
    {
        let candidate = &queues[b][p];
        let ghost k = qs[b as int][p as int];
        proof {
            assert(candidate.0.key() == k);
        }

        let mut positions: Vec<usize> = Vec::new();
        let mut all_present = true;
        let mut i: usize = 0;
        while i < n && all_present
            invariant
                n == queues@.len(),
                qs == queues_keys(queues@),
                candidate.0.key() == k,
                all_present ==> positions@.len() == i,
                i <= n,
                all_present ==> forall|j: int| 0 <= j < i ==> positions@[j] == first_pos(
                    #[trigger] qs[j],
                    k,
                ) && first_pos(qs[j], k) >= 0,
                !all_present ==> exists|j: int| 0 <= j < i && first_pos(#[trigger] qs[j], k) < 0,
            decreases n - i + (if all_present { 1int } else { 0int }),
        {
            match find_key_pos(&queues[i], &candidate.0) {
                Some(fp) => {
                    positions.push(fp);
                },
                None => {
                    all_present = false;
                },
            }
            i = i + 1;
            proof {
                if !all_present {
                    assert(first_pos(qs[i - 1], k) < 0);
                }
            }
        }
        if all_present {
            proof {
                let fpb = first_pos(qs[b as int], k);
                lemma_first_pos(qs[b as int], k);
                assert(fpb >= 0);
                if fpb < p {
                    assert(qs[b as int][fpb] == k);
                    assert forall|i2: int| 0 <= i2 < qs.len() implies contains_key(
                        #[trigger] qs[i2],
                        k,
                    ) by {
                        lemma_first_pos(qs[i2], k);
                        assert(first_pos(qs[i2], k) >= 0);
                        assert(qs[i2][first_pos(qs[i2], k)] == k);
                    }
                    assert(is_common(qs, qs[b as int][fpb]));
                    assert(!is_common(qs, qs[b as int][fpb]));
                }
                if fpb > p {
                    assert(qs[b as int][p as int] != k);
                }
                assert(positions@[b as int] == p);
            }
            proof {
                assert forall|i2: int| 0 <= i2 < qs.len() implies contains_key(
                    #[trigger] qs[i2],
                    k,
                ) by {
                    lemma_first_pos(qs[i2], k);
                    assert(first_pos(qs[i2], k) >= 0);
                    assert(qs[i2][first_pos(qs[i2], k)] == k);
                }
                assert(is_common(qs, k));
            }
            return Some(positions);
        }
        proof {
            let jw = choose|j: int| 0 <= j < n && first_pos(#[trigger] qs[j], k) < 0;
            lemma_first_pos(qs[jw], k);
            if contains_key(qs[jw], k) {
                let jj = choose|j2: int| 0 <= j2 < qs[jw].len() && qs[jw][j2] == k;
                assert(qs[jw][jj] != k);
            }
            assert(!is_common(qs, k));
        }
        p = p + 1;
    }
    None
}

} // verus!
