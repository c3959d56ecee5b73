//! Small flow nodes around the join engine: sequential broadcast of one
//! value to every output, a resettable counter, the pending-data queue of a
//! time-throttled output, and the blank test over raw image pixels.

use vstd::prelude::*;

use crate::value::{lemma_seq_model, seq_model, ValModel, Value};

verus! {

broadcast use lemma_seq_model;

/// The run of copies a sequential broadcast emits: the same value once per
/// output, in output order.
pub fn broadcast_value(value: &Value, n: usize) -> (r: Vec<Value>)
    ensures
        r@.len() == n,
        forall|i: int| 0 <= i < n ==> (#[trigger] r@[i]).model() == value.model(),
{
    let mut out: Vec<Value> = Vec::new();
    let mut i: usize = 0;
    while i < n
        invariant
            i <= n,
            out@.len() == i,
            forall|j: int| 0 <= j < i ==> (#[trigger] out@[j]).model() == value.model(),
        decreases n - i,
    {
        out.push(value.deep_clone());
        i = i + 1;
    }
    out
}

/// A resettable event counter.
pub struct Counter {
    count: i64,
}

impl Counter {
    /// The current count.
    pub closed spec fn value(self) -> i64 {
        self.count
    }

    /// A counter at zero.
    pub fn new() -> (c: Counter)
        ensures
            c.value() == 0,
    {
        Counter { count: 0 }
    }

    /// Restarts the count at zero.
    pub fn start(&mut self)
        ensures
            final(self).value() == 0,
    {
        self.count = 0;
    }

    /// Counts one event and returns the new count; the count saturates at
    /// the largest representable value.
    pub fn bump(&mut self) -> (r: i64)
        ensures
            final(self).value() == if old(self).value() < i64::MAX {
                old(self).value() + 1
            } else {
                old(self).value() as int
            },
            r == final(self).value(),
    {
        if self.count < i64::MAX {
            self.count = self.count + 1;
        }
        self.count
    }

    /// Resets the count to zero and returns it.
    pub fn reset(&mut self) -> (r: i64)
        ensures
            final(self).value() == 0,
            r == 0,
    {
        self.count = 0;
        0
    }
}

/// The pending-data queue of a time-throttled output. While the timer runs,
/// offered items wait here; `max_pending` bounds how many wait (0 keeps
/// nothing, a negative bound keeps everything), and the oldest item is
/// dropped when the bound is exceeded.
pub struct ThrottleQueue {
    max_pending: i64,
    waiting: Vec<Value>,
}

impl ThrottleQueue {
    /// The bound on pending items: 0 keeps nothing, negative keeps all.
    pub closed spec fn bound(self) -> i64 {
        self.max_pending
    }

    /// The pending items, oldest first.
    pub closed spec fn pending(self) -> Seq<ValModel> {
        seq_model(self.waiting@)
    }

    /// An empty queue with the given bound.
    pub fn new(max_pending: i64) -> (q: ThrottleQueue)
        ensures
            q.bound() == max_pending,
            q.pending() == Seq::<ValModel>::empty(),
    {
        let q = ThrottleQueue { max_pending, waiting: Vec::new() };
        proof {
            assert(q.pending() =~= Seq::<ValModel>::empty());
        }
        q
    }

    /// Offers an item while the timer runs: with a bound of 0 the item is
    /// dropped; otherwise it joins the back, and if a positive bound is now
    /// exceeded the oldest item is dropped.
    pub fn offer(&mut self, value: Value)
        requires
            old(self).pending().len() < usize::MAX,
        ensures
            final(self).bound() == old(self).bound(),
            ({
                let grown = old(self).pending().push(value.model());
                if old(self).bound() == 0 {
                    final(self).pending() == old(self).pending()
                } else if old(self).bound() > 0 && grown.len() > old(self).bound() {
                    final(self).pending() == grown.drop_first()
                } else {
                    final(self).pending() == grown
                }
            }),
    {
        if self.max_pending == 0 {
            return ;
        }
        let ghost before = self.waiting@;
        self.waiting.push(value);
        proof {
            assert(seq_model(self.waiting@) =~= seq_model(before).push(value.model()));
        }
        if self.max_pending > 0 && (self.waiting.len() as u64) > (self.max_pending as u64) {
            let ghost grown = self.waiting@;
            self.waiting.remove(0);
            proof {
                assert(seq_model(self.waiting@) =~= seq_model(grown).drop_first());
            }
        }
    }

    /// Takes the oldest pending item, if any; the timer loop emits it.
    pub fn take_oldest(&mut self) -> (r: Option<Value>)
        ensures
            final(self).bound() == old(self).bound(),
            match r {
                Some(v) => old(self).pending().len() > 0 && v.model() == old(self).pending()[0]
                    && final(self).pending() == old(self).pending().drop_first(),
                None => old(self).pending().len() == 0 && final(self).pending() == old(
                    self,
                ).pending(),
            },
    {
        if self.waiting.len() == 0 {
            return None;
        }
        let ghost before = self.waiting@;
        let v = self.waiting.remove(0);
        proof {
            assert(seq_model(self.waiting@) =~= seq_model(before).drop_first());
        }
        Some(v)
    }

    /// Applies a new bound: when the new bound is non-negative and fewer
    /// items are allowed than wait, the oldest excess items are dropped.
    pub fn set_bound(&mut self, max_pending: i64)
        ensures
            final(self).bound() == max_pending,
            ({
                let pend = old(self).pending();
                if max_pending >= 0 && pend.len() > max_pending {
                    final(self).pending() == pend.skip(pend.len() - max_pending)
                } else {
                    final(self).pending() == pend
                }
            }),
    {
        let ghost pend = seq_model(self.waiting@);
        if max_pending >= 0 && (self.waiting.len() as u64) > (max_pending as u64) {
            proof {
                assert(pend.skip(0) =~= pend);
            }
            while (self.waiting.len() as u64) > (max_pending as u64)
                invariant
                    max_pending >= 0,
                    self.waiting@.len() <= pend.len(),
                    self.waiting@.len() >= max_pending,
                    pend == seq_model(old(self).waiting@),
                    seq_model(self.waiting@) =~= pend.skip(pend.len() - self.waiting@.len()),
                decreases self.waiting@.len(),
            {
                let ghost cur = self.waiting@;
                self.waiting.remove(0);
                proof {
                    assert(seq_model(self.waiting@) =~= seq_model(cur).drop_first());
                    assert(pend.skip(pend.len() - cur.len()).drop_first() =~= pend.skip(
                        pend.len() - cur.len() + 1,
                    ));
                }
            }
            proof {
                assert(self.waiting@.len() == max_pending);
            }
        }
        self.max_pending = max_pending;
        proof {
            assert(final(self).pending() =~= seq_model(self.waiting@));
        }
    }
}


/// The admission gate of a delayed output: at most `max_waiting` values may
/// be sleeping at once; further arrivals are dropped until one is released.
pub struct DelayGate {
    waiting: i64,
    max_waiting: i64,
}

impl DelayGate {
    /// How many values are currently sleeping.
    pub closed spec fn waiting_count(self) -> i64 {
        self.waiting
    }

    /// The admission bound.
    pub closed spec fn limit(self) -> i64 {
        self.max_waiting
    }

    /// A gate with nothing sleeping.
    pub fn new(max_waiting: i64) -> (g: DelayGate)
        ensures
            g.waiting_count() == 0,
            g.limit() == max_waiting,
    {
        DelayGate { waiting: 0, max_waiting }
    }

    /// Admits one value unless the bound is reached: admitted values are
    /// counted until released.
    pub fn try_admit(&mut self) -> (r: bool)
        requires
            old(self).waiting_count() < i64::MAX,
        ensures
            final(self).limit() == old(self).limit(),
            r == (old(self).waiting_count() < old(self).limit()),
            final(self).waiting_count() == if r {
                old(self).waiting_count() + 1
            } else {
                old(self).waiting_count() as int
            },
    {
        if self.waiting >= self.max_waiting {
            return false;
        }
        self.waiting = self.waiting + 1;
        true
    }

    /// Releases one admitted value after its delayed output went out.
    pub fn release(&mut self)
        requires
            old(self).waiting_count() > i64::MIN,
        ensures
            final(self).limit() == old(self).limit(),
            final(self).waiting_count() == old(self).waiting_count() - 1,
    {
        self.waiting = self.waiting - 1;
    }
}

/// How many of the pixel samples reach the almost-black threshold.
pub open spec fn bright_count(pixels: Seq<u8>, threshold: u8) -> int
    decreases pixels.len(),
{
    if pixels.len() == 0 {
        0
    } else {
        bright_count(pixels.drop_last(), threshold) + if pixels.last() >= threshold {
            1int
        } else {
            0int
        }
    }
}

/// Whether an image's raw pixel samples are blank: fewer than
/// `blank_threshold` samples reach `almost_black_threshold`.
pub fn pixels_blank(pixels: &Vec<u8>, almost_black_threshold: u8, blank_threshold: u32) -> (r:
    bool)
    ensures
        r == (bright_count(pixels@, almost_black_threshold) < blank_threshold),
{
    let mut count: u64 = 0;
    let mut i: usize = 0;
    while i < pixels.len()
        invariant
            i <= pixels@.len(),
            count == bright_count(pixels@.take(i as int), almost_black_threshold),
            count <= i,
        decreases pixels@.len() - i,
    {
        proof {
            assert(pixels@.take(i + 1).drop_last() =~= pixels@.take(i as int));
            assert(pixels@.take(i + 1).last() == pixels@[i as int]);
        }
        if pixels[i] >= almost_black_threshold {
            count = count + 1;
            if count >= (blank_threshold as u64) {
                proof {
                    lemma_bright_count_monotone(pixels@, almost_black_threshold, i + 1);
                }
                return false;
            }
        }
        i = i + 1;
    }
    proof {
        assert(pixels@.take(pixels@.len() as int) =~= pixels@);
    }
    count < (blank_threshold as u64)
}

/// The bright count of a prefix never exceeds that of the whole.
proof fn lemma_bright_count_monotone(pixels: Seq<u8>, threshold: u8, j: int)
    requires
        0 <= j <= pixels.len(),
    ensures
        bright_count(pixels.take(j), threshold) <= bright_count(pixels, threshold),
    decreases pixels.len() - j,
{
    if j < pixels.len() {
        lemma_bright_count_monotone(pixels, threshold, j + 1);
        assert(pixels.take(j + 1).drop_last() =~= pixels.take(j));
        assert(pixels.take(j + 1).last() == pixels[j]);
    } else {
        assert(pixels.take(j) =~= pixels);
    }
}

} // verus!
