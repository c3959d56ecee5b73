//! The cache-based context-correlated join: a bounded map from canonical key
//! to pending join entry, limited by a maximum entry count and a per-entry
//! time-to-live. Arrivals matched by key fill the entry's slots; a full
//! entry is removed and emitted. Expired or excess entries are silently
//! dropped — a deliberate bounded-memory trade-off, not an error: a later
//! arrival for a dropped key starts a brand-new, empty entry, and the
//! original partner values are lost.

use vstd::prelude::*;

use crate::collect::{all_filled, filled_with_unit, lemma_slots_model, slots_model};
use crate::errors::EngineError;
use crate::token::{CanonicalKey, ContextToken};
use crate::value::{ValModel, Value};

verus! {

/// The abstract content of one pending join entry: its correlation key, the
/// instant at which it expires, and its slots, one per port.
#[verifier::ext_equal]
pub struct EntryModel {
    pub key: CanonicalKey,
    pub deadline: u64,
    pub slots: Seq<Option<ValModel>>,
}

/// One arrival at the cache: the clock reading, the 0-based port, the
/// correlation key and the value.
#[verifier::ext_equal]
pub struct CArrival {
    pub now: u64,
    pub port: int,
    pub key: CanonicalKey,
    pub m: ValModel,
}

/// What one arrival does to the cache: the entries afterwards (oldest
/// first), and the completed aggregate, if the arrival filled its entry.
#[verifier::ext_equal]
pub struct CacheOutcome {
    pub entries: Seq<EntryModel>,
    pub out: Option<Seq<ValModel>>,
}

/// The entries that survive the clock reading `now`: an entry is dropped as
/// soon as `now` reaches its deadline. Order is preserved.
pub open spec fn purge(es: Seq<EntryModel>, now: u64) -> Seq<EntryModel>
    decreases es.len(),
{
    if es.len() == 0 {
        Seq::empty()
    } else {
        let pre = purge(es.drop_last(), now);
        if es.last().deadline > now {
            pre.push(es.last())
        } else {
            pre
        }
    }
}

/// The position of the first entry keyed `k`, or `-1` when there is none.
pub open spec fn entry_index(es: Seq<EntryModel>, k: CanonicalKey) -> int
    decreases es.len(),
{
    if es.len() == 0 {
        -1
    } else if es[0].key == k {
        0
    } else {
        let rest = entry_index(es.drop_first(), k);
        if rest < 0 {
            -1
        } else {
            rest + 1
        }
    }
}

/// `entry_index` finds exactly the first entry with the key.
pub broadcast proof fn lemma_entry_index(es: Seq<EntryModel>, k: CanonicalKey)
    ensures
        #[trigger] entry_index(es, k) < 0 ==> forall|j: int|
            0 <= j < es.len() ==> (#[trigger] es[j]).key != k,
        entry_index(es, k) >= 0 ==> {
            &&& entry_index(es, k) < es.len()
            &&& es[entry_index(es, k)].key == k
            &&& forall|j: int| 0 <= j < entry_index(es, k) ==> (#[trigger] es[j]).key != k
        },
    decreases es.len(),
{
    if es.len() > 0 {
        lemma_entry_index(es.drop_first(), k);
        let rest = entry_index(es.drop_first(), k);
        if es[0].key == k {
        } else if rest < 0 {
            assert forall|j: int| 0 <= j < es.len() implies (#[trigger] es[j]).key != k by {
                if j > 0 {
                    assert(es.drop_first()[j - 1] == es[j]);
                    assert(es.drop_first()[j - 1].key != k);
                }
            }
        } else {
            assert(es.drop_first()[rest] == es[rest + 1]);
            assert forall|j: int| 0 <= j < rest + 1 implies (#[trigger] es[j]).key != k by {
                if j > 0 {
                    assert(es.drop_first()[j - 1] == es[j]);
                    assert(es.drop_first()[j - 1].key != k);
                }
            }
        }
    }
}

/// The deadline `ttl` seconds after `now`, saturating at the largest
/// representable instant.
pub open spec fn deadline_after(now: u64, ttl: u64) -> u64 {
    if now + ttl > u64::MAX {
        u64::MAX
    } else {
        (now + ttl) as u64
    }
}

/// One step of the cache machine on arrival `a`, over `n` ports with the
/// given capacity and time-to-live:
/// - entries whose deadline `a.now` has reached are purged;
/// - the entry for `a.key` is fetched, or a fresh all-empty one made;
/// - the value is written at `a.port` (overwrite wins);
/// - a full entry is removed and its values are emitted in port order;
/// - otherwise the entry is written back at the freshest position with its
///   deadline refreshed, and the oldest entries beyond `capacity` are
///   dropped.
pub open spec fn cache_step(
    es: Seq<EntryModel>,
    n: int,
    capacity: int,
    ttl: u64,
    a: CArrival,
) -> CacheOutcome {
    let es1 = purge(es, a.now);
    let idx = entry_index(es1, a.key);
    let slots0 = if idx >= 0 {
        es1[idx].slots
    } else {
        Seq::new(n as nat, |i: int| None::<ValModel>)
    };
    let without = if idx >= 0 {
        es1.remove(idx)
    } else {
        es1
    };
    let written = slots0.update(a.port, Some(a.m));
    if all_filled(written) {
        CacheOutcome { entries: without, out: Some(filled_with_unit(written)) }
    } else {
        let grown = without.push(
            EntryModel { key: a.key, deadline: deadline_after(a.now, ttl), slots: written },
        );
        let bounded = if grown.len() > capacity {
            grown.skip(grown.len() - capacity)
        } else {
            grown
        };
        CacheOutcome { entries: bounded, out: None }
    }
}

/// One pending join entry.
pub struct CacheEntry {
    token: ContextToken,
    deadline: u64,
    slots: Vec<Option<Value>>,
}

/// A bounded correlation cache over `n` ports.
pub struct CorrelationCache {
    n: usize,
    capacity: usize,
    ttl_sec: u64,
    entries: Vec<CacheEntry>,
}

impl CorrelationCache {
    /// The number of ports.
    pub closed spec fn ports(self) -> int {
        self.n as int
    }

    /// The maximum number of concurrently pending entries.
    pub closed spec fn cap(self) -> int {
        self.capacity as int
    }

    /// The per-entry time-to-live, in seconds.
    pub closed spec fn ttl(self) -> u64 {
        self.ttl_sec
    }

    /// The pending entries, oldest first.
    pub closed spec fn entries_model(self) -> Seq<EntryModel> {
        Seq::new(
            self.entries@.len(),
            |i: int|
                EntryModel {
                    key: self.entries@[i].token.key(),
                    deadline: self.entries@[i].deadline,
                    slots: slots_model(self.entries@[i].slots@),
                },
        )
    }

    /// Internal consistency: at least one port, and one slot per port in
    /// every pending entry.
    pub closed spec fn wf(self) -> bool {
        &&& self.n >= 1
        &&& forall|i: int| 0 <= i < self.entries@.len() ==> (
        #[trigger] self.entries@[i]).slots@.len() == self.n
    }

    /// A cache over `n` ports, holding at most `capacity` pending entries,
    /// each for at most `ttl_sec` seconds after its last write. Fewer than
    /// one port is a configuration error.
    pub fn new(n: usize, capacity: usize, ttl_sec: u64) -> (r: Result<
        CorrelationCache,
        EngineError,
    >)
        ensures
            match r {
                Ok(c) => n >= 1 && c.wf() && c.ports() == n && c.cap() == capacity && c.ttl()
                    == ttl_sec && c.entries_model() == Seq::<EntryModel>::empty(),
                Err(e) => n < 1 && e.is_config(),
            },
    {
        if n < 1 {
            return Err(EngineError::InvalidConfig(String::from_str("n must be at least 1")));
        }
        let c = CorrelationCache { n, capacity, ttl_sec, entries: Vec::new() };
        proof {
            assert(c.entries_model() =~= Seq::<EntryModel>::empty());
        }
        Ok(c)
    }

    /// Invalidates the whole cache, discarding all in-flight joins; the only
    /// way pending state is torn down outside completion and eviction.
    pub fn reset(&mut self)
        requires
            old(self).wf(),
        ensures
            final(self).wf(),
            final(self).ports() == old(self).ports(),
            final(self).cap() == old(self).cap(),
            final(self).ttl() == old(self).ttl(),
            final(self).entries_model() == Seq::<EntryModel>::empty(),
    {
        self.entries = Vec::new();
        proof {
            assert(final(self).entries_model() =~= Seq::<EntryModel>::empty());
        }
    }

    /// The number of pending entries.
    pub fn pending(&self) -> (r: usize)
        ensures
            r == self.entries_model().len(),
    {
        self.entries.len()
    }

    /// Processes the arrival of `value` under `token` on `port` at instant
    /// `now`, exactly as the abstract machine `cache_step` prescribes. The
    /// completed aggregate, when one is returned, carries the entry's values
    /// in port order.
    pub fn insert(&mut self, token: ContextToken, port: usize, value: Value, now: u64) -> (r:
        Result<Option<Vec<Value>>, EngineError>)
        requires
            old(self).wf(),
        ensures
            final(self).wf(),
            final(self).ports() == old(self).ports(),
            final(self).cap() == old(self).cap(),
            final(self).ttl() == old(self).ttl(),
            ({
                let a = CArrival { now, port: port as int, key: token.key(), m: value.model() };
                let o = cache_step(
                    old(self).entries_model(),
                    old(self).ports(),
                    old(self).cap(),
                    old(self).ttl(),
                    a,
                );
                match r {
                    Ok(out) => port < old(self).ports() && final(self).entries_model()
                        == o.entries && match out {
                        Some(vals) => o.out == Some(crate::value::seq_model(vals@))
                            && vals@.len() == old(self).ports(),
                        None => o.out is None,
                    },
                    Err(e) => port >= old(self).ports() && e.is_value()
                        && final(self).entries_model() == old(self).entries_model(),
                }
            }),
    {
        broadcast use lemma_entry_index, lemma_slots_model;

        let ghost a = CArrival { now, port: port as int, key: token.key(), m: value.model() };
        if port >= self.n {
            proof {
                assert(final(self).entries_model() =~= old(self).entries_model());
            }
            return Err(EngineError::InvalidValue(String::from_str("unrecognized input port")));
        }
        let n = self.n;
        let capacity = self.capacity;
        let ttl_sec = self.ttl_sec;
        let ghost es0 = self.entries_model();

        // Purge entries whose deadline `now` has reached.
        let mut rest: Vec<CacheEntry> = Vec::new();
        core::mem::swap(&mut self.entries, &mut rest);
        let ghost orig = rest@;
        let mut store: Vec<CacheEntry> = Vec::new();
        proof {
            assert(rest@ =~= orig.skip(0));
            assert(entries_of(orig.take(0)) =~= Seq::<EntryModel>::empty());
            assert(entries_of(store@) =~= purge(entries_of(orig.take(0)), now));
        }
        while rest.len() > 0
            invariant
                rest@.len() <= orig.len(),
                rest@ == orig.skip(orig.len() - rest@.len()),
                entries_of(store@) =~= purge(
                    entries_of(orig.take(orig.len() - rest@.len())),
                    now,
                ),
                forall|i: int| 0 <= i < store@.len() ==> (#[trigger] store@[i]).slots@.len()
                    == n,
                forall|i: int| 0 <= i < orig.len() ==> (#[trigger] orig[i]).slots@.len() == n,
            decreases rest@.len(),
        {
            let ghost consumed = orig.len() - rest@.len();
            proof {
                assert(0 <= consumed < orig.len());
                assert(rest@[0] == orig.skip(consumed as int)[0]);
                assert(rest@[0] == orig[consumed as int]);
                assert(orig.take(consumed + 1).drop_last() =~= orig.take(consumed as int));
                assert(entries_of(orig.take(consumed + 1)).drop_last() =~= entries_of(
                    orig.take(consumed as int),
                ));
                assert(entries_of(orig.take(consumed + 1)).last().deadline
                    == orig[consumed as int].deadline);
            }
            let e = rest.remove(0);
            if e.deadline > now {
                store.push(e);
            }
            proof {
                assert(rest@ =~= orig.skip(orig.len() - rest@.len()));
                assert(entries_of(store@) =~= purge(
                    entries_of(orig.take(orig.len() - rest@.len())),
                    now,
                ));
            }
        }
        proof {
            assert(orig.take(orig.len() as int) =~= orig);
            assert(entries_of(orig) =~= es0);
            assert(entries_of(store@) =~= purge(es0, now));
        }
        let ghost es1 = purge(es0, now);

        // Fetch the entry for this key, or make a fresh all-empty one.
        let mut pos: usize = 0;
        let mut found = false;
        while pos < store.len() && !found
            invariant
                pos <= store@.len(),
                !found ==> forall|j: int| 0 <= j < pos ==> (#[trigger] store@[j]).token.key()
                    != token.key(),
                found ==> pos < store@.len() && store@[pos as int].token.key() == token.key()
                    && forall|j: int| 0 <= j < pos ==> (#[trigger] store@[j]).token.key()
                    != token.key(),
            decreases store@.len() - pos + (if found { 0int } else { 1int }),
        {
            if store[pos].token.same_key(&token) {
                found = true;
            } else {
                pos = pos + 1;
            }
        }
        proof {
            let ei = entry_index(es1, token.key());
            if found {
                assert(es1[pos as int].key == token.key());
                if ei < pos {
                    assert(es1[ei].key != token.key());
                }
                if ei > pos {
                    assert(es1[pos as int].key != token.key());
                }
                assert(ei == pos);
            } else {
                if ei >= 0 {
                    assert(es1[ei].key == token.key());
                    assert(store@[ei].token.key() != token.key());
                }
                assert(ei < 0);
            }
        }

        let mut entry: CacheEntry;
        if found {
            let ghost before_remove = store@;
            entry = store.remove(pos);
            proof {
                assert(entry == before_remove[pos as int]);
                assert(entry.slots@.len() == n);
                assert(entries_of(store@) =~= es1.remove(pos as int));
            }
        } else {
            let mut fresh: Vec<Option<Value>> = Vec::new();
            let mut i: usize = 0;
            while i < n
                invariant
                    i <= n,
                    fresh@.len() == i,
                    forall|j: int| 0 <= j < i ==> (#[trigger] fresh@[j]) is None,
                decreases n - i,
            {
                fresh.push(None);
                i = i + 1;
            }
            entry = CacheEntry { token, deadline: 0, slots: fresh };
            proof {
                assert(slots_model(entry.slots@) =~= Seq::new(
                    old(self).ports() as nat,
                    |i: int| None::<ValModel>,
                ));
            }
        }
        let ghost slots0 = slots_model(entry.slots@);
        let ghost without = entries_of(store@);

        // Write the value at this port; overwrite wins.
        let ghost base_slots = entry.slots@;
        let mut slots = entry.slots;
        slots.remove(port);
        slots.insert(port, Some(value));
        proof {
            assert(slots@ =~= base_slots.update(port as int, slots@[port as int]));
            assert(slots_model(slots@) =~= slots0.update(port as int, Some(value.model())));
        }
        let ghost written = slots_model(slots@);

        // Completion test: is every slot written?
        let mut missing = false;
        let mut i: usize = 0;
        while i < slots.len()
            invariant
                i <= slots@.len(),
                missing == exists|j: int| 0 <= j < i && (#[trigger] slots@[j]) is None,
            decreases slots@.len() - i,
        {
            if slots[i].is_none() {
                missing = true;
            }
            i = i + 1;
        }
        if !missing {
            proof {
                assert forall|j: int| 0 <= j < written.len() implies (#[trigger] written[j])
                    is Some by {
                    assert(!(slots@[j] is None));
                }
                assert(all_filled(written));
            }
            let vals = crate::collect::drain_input_values(slots);
            self.entries = store;
            proof {
                assert(final(self).entries_model() =~= without);
                assert(crate::value::seq_model(vals@) =~= filled_with_unit(written));
                crate::value::lemma_seq_model(vals@);
                assert(vals@.len() == crate::value::seq_model(vals@).len());
                assert(filled_with_unit(written).len() == written.len());
                assert(written.len() == slots@.len());
                assert(slots@.len() == n);
                assert(vals@.len() == old(self).ports());
            }
            return Ok(Some(vals));
        }
        proof {
            let jw = choose|j: int| 0 <= j < slots@.len() && (#[trigger] slots@[j]) is None;
            assert(written[jw] is None);
            assert(!all_filled(written));
        }

        // Write the entry back at the freshest position, deadline refreshed.
        let deadline = if now > u64::MAX - ttl_sec {
            u64::MAX
        } else {
            now + ttl_sec
        };
        let refreshed = CacheEntry { token: entry.token, deadline, slots };
        store.push(refreshed);
        let ghost grown = without.push(
            EntryModel { key: a.key, deadline: deadline_after(now, ttl_sec), slots: written },
        );
        proof {
            assert(entries_of(store@) =~= grown);
        }

        // Capacity bound: drop the oldest entries beyond the limit.
        let ghost glen = grown.len() as int;
        proof {
            assert(grown.skip(0) =~= grown);
        }
        while store.len() > capacity
            invariant
                store@.len() <= glen,
                glen == grown.len(),
                store@.len() == glen || store@.len() >= capacity,
                entries_of(store@) =~= grown.skip(glen - store@.len()),
                forall|i: int| 0 <= i < store@.len() ==> (#[trigger] store@[i]).slots@.len()
                    == n,
            decreases store@.len(),
        {
            let ghost cur = store@;
            store.remove(0);
            proof {
                assert(entries_of(store@) =~= entries_of(cur).drop_first());
                assert(grown.skip(glen - cur.len()).drop_first() =~= grown.skip(
                    glen - cur.len() + 1,
                ));
                assert(entries_of(cur).drop_first() =~= grown.skip(glen - store@.len()));
            }
        }
        self.entries = store;
        proof {
            let o = cache_step(es0, old(self).ports(), old(self).cap(), old(self).ttl(), a);
            if grown.len() > old(self).cap() {
                assert(store@.len() == old(self).cap());
                assert(final(self).entries_model() =~= grown.skip(
                    glen - old(self).cap(),
                ));
                assert(o.entries =~= grown.skip(glen - old(self).cap()));
            } else {
                assert(store@.len() == glen);
                assert(grown.skip(glen - store@.len()) =~= grown);
                assert(final(self).entries_model() =~= grown);
            }
            assert(final(self).entries_model() =~= o.entries);
        }
        Ok(None)
    }
}

/// The entry models of a sequence of cache entries.
pub closed spec fn entries_of(s: Seq<CacheEntry>) -> Seq<EntryModel> {
    Seq::new(
        s.len(),
        |i: int|
            EntryModel {
                key: s[i].token.key(),
                deadline: s[i].deadline,
                slots: slots_model(s[i].slots@),
            },
    )
}


/// Whether some entry carries key `k`.
pub open spec fn has_key(es: Seq<EntryModel>, k: CanonicalKey) -> bool {
    exists|i: int| 0 <= i < es.len() && (#[trigger] es[i]).key == k
}

/// The entry carrying key `k` (unique under `distinct_keys`).
pub open spec fn entry_of(es: Seq<EntryModel>, k: CanonicalKey) -> EntryModel {
    es[choose|i: int| 0 <= i < es.len() && (#[trigger] es[i]).key == k]
}

/// Whether no two entries carry the same key.
pub open spec fn distinct_keys(es: Seq<EntryModel>) -> bool {
    forall|i: int, j: int| 0 <= i < j < es.len() ==> (#[trigger] es[i]).key != (
    #[trigger] es[j]).key
}

/// Under distinct keys, `entry_of` is the one entry with the key, and any
/// entry with the key is it.
pub proof fn lemma_entry_of(es: Seq<EntryModel>, k: CanonicalKey)
    requires
        distinct_keys(es),
        has_key(es, k),
    ensures
        entry_of(es, k).key == k,
        exists|i: int| 0 <= i < es.len() && es[i] == entry_of(es, k),
        forall|i: int| 0 <= i < es.len() && (#[trigger] es[i]).key == k ==> es[i] == entry_of(
            es,
            k,
        ),
{
    let w = choose|i: int| 0 <= i < es.len() && (#[trigger] es[i]).key == k;
    assert(es[w] == entry_of(es, k));
    assert forall|i: int| 0 <= i < es.len() && (#[trigger] es[i]).key == k implies es[i]
        == entry_of(es, k) by {
        if i != w {
            if i < w {
                assert(es[i].key != es[w].key);
            } else {
                assert(es[w].key != es[i].key);
            }
        }
    }
}

/// How purging relates to keys: no key appears from nowhere; a distinct-key
/// cache stays distinct; a present key survives exactly when its entry's
/// deadline lies ahead, and then its entry is unchanged; purging never grows
/// the cache.
pub proof fn lemma_purge_key(es: Seq<EntryModel>, now: u64, k: CanonicalKey)
    requires
        distinct_keys(es),
    ensures
        distinct_keys(purge(es, now)),
        purge(es, now).len() <= es.len(),
        has_key(purge(es, now), k) ==> has_key(es, k),
        has_key(es, k) ==> (has_key(purge(es, now), k) <==> entry_of(es, k).deadline > now),
        has_key(purge(es, now), k) ==> entry_of(purge(es, now), k) == entry_of(es, k),
    decreases es.len(),
{
    if es.len() == 0 {
    } else {
        let pre = es.drop_last();
        let e = es.last();
        assert(distinct_keys(pre)) by {
            assert(forall|i: int| 0 <= i < pre.len() ==> pre[i] == es[i]);
        }
        lemma_purge_key(pre, now, k);
        let pp = purge(pre, now);
        // membership of the whole: es's keys are pre's keys plus e.key
        assert forall|kk: CanonicalKey| has_key(purge(es, now), kk) implies has_key(
            es,
            kk,
        ) by {
            lemma_purge_key(pre, now, kk);
            if e.deadline > now {
                let w = choose|i: int|
                    0 <= i < purge(es, now).len() && (#[trigger] purge(es, now)[i]).key == kk;
                if w < pp.len() {
                    assert(pp[w].key == kk);
                    assert(has_key(pre, kk));
                    let w2 = choose|i: int|
                        0 <= i < pre.len() && (#[trigger] pre[i]).key == kk;
                    assert(es[w2].key == kk);
                } else {
                    assert(purge(es, now)[w] == e);
                    assert(es[es.len() - 1].key == kk);
                }
            } else {
                assert(has_key(pre, kk));
                let w2 = choose|i: int| 0 <= i < pre.len() && (#[trigger] pre[i]).key == kk;
                assert(es[w2].key == kk);
            }
        }
        // distinctness
        if e.deadline > now {
            assert(distinct_keys(purge(es, now))) by {
                assert forall|i: int, j: int|
                    0 <= i < j < purge(es, now).len() implies (#[trigger] purge(es, now)[i]).key
                    != (#[trigger] purge(es, now)[j]).key by {
                    if j < pp.len() {
                        assert(pp[i].key != pp[j].key);
                    } else {
                        assert(purge(es, now)[j] == e);
                        assert(pp[i].key == purge(es, now)[i].key);
                        lemma_purge_key(pre, now, pp[i].key);
                        assert(has_key(pp, pp[i].key));
                        assert(has_key(pre, pp[i].key));
                        let w2 = choose|i2: int|
                            0 <= i2 < pre.len() && (#[trigger] pre[i2]).key == pp[i].key;
                        assert(es[w2].key == pp[i].key);
                        assert(es[w2].key != e.key);
                    }
                }
            }
        }
        // presence and content of k
        if has_key(es, k) {
            lemma_entry_of(es, k);
            let ek = entry_of(es, k);
            if e.key == k {
                assert(ek == e) by {
                    assert(es[es.len() - 1].key == k);
                }
                assert(!has_key(pre, k)) by {
                    if has_key(pre, k) {
                        let w2 = choose|i: int|
                            0 <= i < pre.len() && (#[trigger] pre[i]).key == k;
                        assert(es[w2].key == es[es.len() - 1].key);
                        assert(false);
                    }
                }
                assert(!has_key(pp, k)) by {
                    if has_key(pp, k) {
                        assert(has_key(pre, k));
                    }
                }
                if e.deadline > now {
                    assert(purge(es, now)[purge(es, now).len() - 1] == e);
                    assert(has_key(purge(es, now), k));
                    lemma_entry_of(purge(es, now), k);
                    assert(entry_of(purge(es, now), k) == e);
                } else {
                    assert(purge(es, now) == pp);
                    assert(!has_key(purge(es, now), k));
                }
            } else {
                assert(has_key(pre, k)) by {
                    let w = choose|i: int| 0 <= i < es.len() && (#[trigger] es[i]).key == k;
                    assert(w < pre.len());
                    assert(pre[w].key == k);
                }
                lemma_entry_of(pre, k);
                assert(entry_of(pre, k) == ek) by {
                    let w2 = choose|i: int| 0 <= i < pre.len() && (#[trigger] pre[i]).key == k;
                    assert(es[w2] == ek);
                }
                if e.deadline > now {
                    if has_key(pp, k) {
                        lemma_entry_of(pp, k);
                        let w3 = choose|i: int|
                            0 <= i < pp.len() && (#[trigger] pp[i]).key == k;
                        assert(purge(es, now)[w3].key == k);
                        assert(has_key(purge(es, now), k));
                        lemma_entry_of(purge(es, now), k);
                        assert(entry_of(purge(es, now), k) == entry_of(pp, k));
                    } else {
                        assert(!has_key(purge(es, now), k)) by {
                            if has_key(purge(es, now), k) {
                                let w4 = choose|i: int|
                                    0 <= i < purge(es, now).len() && (#[trigger] purge(
                                        es,
                                        now,
                                    )[i]).key == k;
                                if w4 < pp.len() {
                                    assert(pp[w4].key == k);
                                } else {
                                    assert(purge(es, now)[w4] == e);
                                }
                            }
                        }
                    }
                }
            }
        } else {
            assert(!has_key(purge(es, now), k)) by {
                if has_key(purge(es, now), k) {
                    assert(has_key(es, k));
                }
            }
        }
    }
}

/// Bridges `entry_index` (how the step function looks keys up) with the
/// key-set view, under distinct keys.
pub proof fn lemma_entry_index_bridge(es: Seq<EntryModel>, k: CanonicalKey)
    requires
        distinct_keys(es),
    ensures
        has_key(es, k) <==> entry_index(es, k) >= 0,
        has_key(es, k) ==> es[entry_index(es, k)] == entry_of(es, k),
{
    lemma_entry_index(es, k);
    if entry_index(es, k) >= 0 {
        assert(es[entry_index(es, k)].key == k);
        assert(has_key(es, k));
        lemma_entry_of(es, k);
    } else {
        if has_key(es, k) {
            let w = choose|i: int| 0 <= i < es.len() && (#[trigger] es[i]).key == k;
            assert(es[w].key != k);
        }
    }
}


/// The invariant the cache machine maintains: keys are unique, every entry
/// has one slot per port, and the entry count never exceeds the capacity.
pub open spec fn cache_inv(es: Seq<EntryModel>, n: int, capacity: int) -> bool {
    &&& distinct_keys(es)
    &&& forall|i: int| 0 <= i < es.len() ==> (#[trigger] es[i]).slots.len() == n
    &&& es.len() <= capacity
}

/// The slots of the entry the step writes for `a.key`: the fetched entry's
/// slots (those surviving the purge), or fresh all-empty slots, with the
/// arriving value written at its port.
pub open spec fn step_written(es: Seq<EntryModel>, n: int, a: CArrival) -> Seq<Option<ValModel>> {
    let es1 = purge(es, a.now);
    let slots0 = if has_key(es1, a.key) {
        entry_of(es1, a.key).slots
    } else {
        Seq::new(n as nat, |i: int| None::<ValModel>)
    };
    slots0.update(a.port, Some(a.m))
}

/// Whether key `k` stays inside the TTL/capacity window across one arrival:
/// a pending entry for `k` is not dropped by the purge, and after the step
/// `k` is still pending unless this very arrival completed it.
pub open spec fn key_retained(
    es: Seq<EntryModel>,
    n: int,
    capacity: int,
    ttl: u64,
    a: CArrival,
    k: CanonicalKey,
) -> bool {
    let es1 = purge(es, a.now);
    let o = cache_step(es, n, capacity, ttl, a);
    &&& (has_key(es, k) ==> has_key(es1, k))
    &&& ((has_key(es1, k) || a.key == k) && !(a.key == k && o.out is Some) ==> has_key(
        o.entries,
        k,
    ))
}

/// What one step does to the entries, key by key.
pub proof fn lemma_cache_step_effects(
    es: Seq<EntryModel>,
    n: int,
    capacity: int,
    ttl: u64,
    a: CArrival,
    k: CanonicalKey,
)
    requires
        cache_inv(es, n, capacity),
        n >= 1,
        capacity >= 0,
        0 <= a.port < n,
    ensures
        ({
            let o = cache_step(es, n, capacity, ttl, a);
            let es1 = purge(es, a.now);
            let written = step_written(es, n, a);
            &&& cache_inv(o.entries, n, capacity)
            &&& (o.out is Some <==> all_filled(written))
            &&& (o.out is Some ==> o.out == Some(filled_with_unit(written)))
            &&& (has_key(o.entries, k) ==> has_key(es1, k) || a.key == k)
            &&& (has_key(es1, k) ==> has_key(es, k) && entry_of(es1, k) == entry_of(es, k))
            &&& (a.key != k && has_key(o.entries, k) ==> entry_of(o.entries, k) == entry_of(
                es1,
                k,
            ))
            &&& (a.key == k && o.out is Some ==> !has_key(o.entries, k))
            &&& (a.key == k && !(o.out is Some) && has_key(o.entries, k) ==> entry_of(
                o.entries,
                k,
            ).slots == written && entry_of(o.entries, k).key == k)
            &&& written.len() == n
        }),
{
    let o = cache_step(es, n, capacity, ttl, a);
    let es1 = purge(es, a.now);
    let written = step_written(es, n, a);
    lemma_purge_key(es, a.now, k);
    lemma_purge_key(es, a.now, a.key);
    lemma_entry_index_bridge(es1, a.key);
    let idx = entry_index(es1, a.key);

    // purged entries keep their slot arity
    assert forall|i: int| 0 <= i < es1.len() implies (#[trigger] es1[i]).slots.len() == n by {
        lemma_purge_key(es, a.now, es1[i].key);
        assert(has_key(es1, es1[i].key)) by {
            assert(es1[i].key == es1[i].key);
        }
        assert(has_key(es, es1[i].key));
        lemma_entry_of(es1, es1[i].key);
        lemma_entry_of(es, es1[i].key);
        assert(distinct_keys(es1));
        assert(es1[i] == entry_of(es1, es1[i].key));
        assert(entry_of(es1, es1[i].key) == entry_of(es, es1[i].key));
        let w = choose|j: int| 0 <= j < es.len() && (#[trigger] es[j]).key == es1[i].key;
        assert(es[w] == entry_of(es, es1[i].key));
    }
    assert(written.len() == n) by {
        if has_key(es1, a.key) {
            lemma_entry_of(es1, a.key);
            let w = choose|j: int| 0 <= j < es1.len() && (#[trigger] es1[j]).key == a.key;
            assert(es1[w].slots.len() == n);
        }
    }
    // the fetched slots and the removal
    let without = if idx >= 0 { es1.remove(idx) } else { es1 };
    if idx >= 0 {
        lemma_entry_index(es1, a.key);
        es1.remove_ensures(idx);
        assert(es1[idx] == entry_of(es1, a.key));
        assert(forall|i: int| 0 <= i < idx ==> (#[trigger] without[i]) == es1[i]);
        assert(forall|i: int| idx <= i < without.len() ==> (#[trigger] without[i]) == es1[i
            + 1]);
    }
    assert(distinct_keys(without)) by {
        if idx >= 0 {
            assert forall|i: int, j: int| 0 <= i < j < without.len() implies (
            #[trigger] without[i]).key != (#[trigger] without[j]).key by {
                let i2: int = if i < idx { i } else { i + 1 };
                let j2: int = if j < idx { j } else { j + 1 };
                assert(without[i] == es1[i2] && without[j] == es1[j2]);
            }
        }
    }
    assert(!has_key(without, a.key)) by {
        if idx >= 0 && has_key(without, a.key) {
            let w = choose|i: int| 0 <= i < without.len() && (#[trigger] without[i]).key
                == a.key;
            let w2: int = if w < idx { w } else { w + 1 };
            assert(without[w] == es1[w2]);
            assert(es1[w2].key == es1[idx].key && w2 != idx);
            if w2 < idx {
                assert(es1[w2].key != es1[idx].key);
            } else {
                assert(es1[idx].key != es1[w2].key);
            }
        }
    }
    assert forall|kk: CanonicalKey| kk != a.key implies (has_key(without, kk) <==> has_key(
        es1,
        kk,
    )) && (has_key(without, kk) ==> entry_of(without, kk) == entry_of(es1, kk)) by {
        if idx >= 0 {
            if has_key(without, kk) {
                let w = choose|i: int| 0 <= i < without.len() && (#[trigger] without[i]).key
                    == kk;
                let w2: int = if w < idx { w } else { w + 1 };
                assert(without[w] == es1[w2]);
                assert(es1[w2].key == kk);
                assert(has_key(es1, kk));
                lemma_entry_of(without, kk);
                lemma_entry_of(es1, kk);
            }
            if has_key(es1, kk) {
                let w = choose|i: int| 0 <= i < es1.len() && (#[trigger] es1[i]).key == kk;
                assert(w != idx);
                let w2: int = if w < idx { w } else { w - 1 };
                assert(without[w2] == es1[w]);
                assert(has_key(without, kk));
            }
        }
    }
    assert forall|i: int| 0 <= i < without.len() implies (#[trigger] without[i]).slots.len()
        == n by {
        if idx >= 0 {
            let i2: int = if i < idx { i } else { i + 1 };
            assert(without[i] == es1[i2]);
        }
    }

    if all_filled(written) {
        assert(o.entries == without);
        assert(o.out == Some(filled_with_unit(written)));
        assert(o.entries.len() <= capacity) by {
            assert(es1.len() <= es.len());
        }
    } else {
        let fresh_entry = EntryModel {
            key: a.key,
            deadline: deadline_after(a.now, ttl),
            slots: written,
        };
        let grown = without.push(fresh_entry);
        let d: int = if grown.len() > capacity {
            grown.len() - capacity
        } else {
            0
        };
        let bounded = grown.skip(d);
        assert(o.entries == bounded) by {
            if grown.len() <= capacity {
                assert(grown.skip(0) =~= grown);
            }
        }
        assert(distinct_keys(grown)) by {
            assert forall|i: int, j: int| 0 <= i < j < grown.len() implies (
            #[trigger] grown[i]).key != (#[trigger] grown[j]).key by {
                if j == grown.len() - 1 {
                    assert(grown[i] == without[i]);
                    if grown[i].key == a.key {
                        assert(has_key(without, a.key));
                    }
                } else {
                    assert(grown[i] == without[i] && grown[j] == without[j]);
                }
            }
        }
        assert(distinct_keys(bounded)) by {
            assert(forall|i: int| 0 <= i < bounded.len() ==> (#[trigger] bounded[i]) == grown[i
                + d]);
        }
        assert(bounded.len() <= capacity);
        assert forall|i: int| 0 <= i < bounded.len() implies (#[trigger] bounded[i]).slots.len()
            == n by {
            assert(bounded[i] == grown[i + d]);
            if i + d < without.len() {
                assert(grown[i + d] == without[i + d]);
            } else {
                assert(grown[i + d] == fresh_entry);
            }
        }
        // key effects through push and skip
        assert forall|kk: CanonicalKey| has_key(bounded, kk) implies has_key(grown, kk) by {
            let w = choose|i: int| 0 <= i < bounded.len() && (#[trigger] bounded[i]).key == kk;
            assert(bounded[w] == grown[w + d]);
            assert(grown[w + d].key == kk);
        }
        assert forall|kk: CanonicalKey| kk != a.key && has_key(grown, kk) implies has_key(
            without,
            kk,
        ) && entry_of(grown, kk) == entry_of(without, kk) by {
            let w = choose|i: int| 0 <= i < grown.len() && (#[trigger] grown[i]).key == kk;
            assert(w < without.len()) by {
                if w == grown.len() - 1 {
                    assert(grown[w] == fresh_entry);
                }
            }
            assert(grown[w] == without[w]);
            assert(without[w].key == kk);
            lemma_entry_of(grown, kk);
            lemma_entry_of(without, kk);
        }
        assert forall|kk: CanonicalKey| has_key(bounded, kk) implies entry_of(bounded, kk)
            == entry_of(grown, kk) by {
            let w = choose|i: int| 0 <= i < bounded.len() && (#[trigger] bounded[i]).key == kk;
            assert(bounded[w] == grown[w + d]);
            assert(grown[w + d].key == kk);
            assert(has_key(grown, kk));
            lemma_entry_of(bounded, kk);
            lemma_entry_of(grown, kk);
        }
        assert(grown[grown.len() - 1] == fresh_entry);
        assert(has_key(grown, a.key));
        assert(entry_of(grown, a.key) == fresh_entry) by {
            lemma_entry_of(grown, a.key);
        }
        if has_key(bounded, k) {
            if a.key == k {
                assert(entry_of(bounded, k) == fresh_entry);
            }
        }
    }
}


/// The cache machine run over a whole arrival history from an empty cache,
/// with every aggregate it emitted, each under the key that completed it.
#[verifier::ext_equal]
pub struct CacheRun {
    pub entries: Seq<EntryModel>,
    pub emitted: Seq<(CanonicalKey, Seq<ValModel>)>,
}

/// The run of the cache machine over `h`, starting empty.
pub open spec fn cache_run(n: int, capacity: int, ttl: u64, h: Seq<CArrival>) -> CacheRun
    decreases h.len(),
{
    if h.len() == 0 {
        CacheRun { entries: Seq::empty(), emitted: Seq::empty() }
    } else {
        let pre = cache_run(n, capacity, ttl, h.drop_last());
        let o = cache_step(pre.entries, n, capacity, ttl, h.last());
        CacheRun {
            entries: o.entries,
            emitted: match o.out {
                Some(vals) => pre.emitted.push((h.last().key, vals)),
                None => pre.emitted,
            },
        }
    }
}

/// How many arrivals of `h` carry key `k` on port `p`.
pub open spec fn key_port_count(h: Seq<CArrival>, k: CanonicalKey, p: int) -> int
    decreases h.len(),
{
    if h.len() == 0 {
        0
    } else {
        key_port_count(h.drop_last(), k, p) + if h.last().key == k && h.last().port == p {
            1int
        } else {
            0int
        }
    }
}

/// The value of the last arrival of `h` carrying key `k` on port `p` (the
/// only one, when that count is 1).
pub open spec fn key_port_val(h: Seq<CArrival>, k: CanonicalKey, p: int) -> ValModel
    decreases h.len(),
{
    if h.len() == 0 {
        ValModel::Unit
    } else if h.last().key == k && h.last().port == p {
        h.last().m
    } else {
        key_port_val(h.drop_last(), k, p)
    }
}

/// The aggregates emitted under key `k`, in order.
pub open spec fn emitted_for(em: Seq<(CanonicalKey, Seq<ValModel>)>, k: CanonicalKey) -> Seq<
    Seq<ValModel>,
>
    decreases em.len(),
{
    if em.len() == 0 {
        Seq::empty()
    } else {
        let pre = emitted_for(em.drop_last(), k);
        if em.last().0 == k {
            pre.push(em.last().1)
        } else {
            pre
        }
    }
}

/// Whether key `k` stays inside the TTL/capacity window for the whole
/// history: at no arrival is `k`'s pending entry dropped by the purge or by
/// capacity pressure.
pub open spec fn key_within_window(
    n: int,
    capacity: int,
    ttl: u64,
    h: Seq<CArrival>,
    k: CanonicalKey,
) -> bool {
    forall|j: int| 0 <= j < h.len() ==> key_retained(
        cache_run(n, capacity, ttl, #[trigger] h.take(j)).entries,
        n,
        capacity,
        ttl,
        h[j],
        k,
    )
}

proof fn lemma_correlated_join_aux(
    n: int,
    capacity: int,
    ttl: u64,
    h: Seq<CArrival>,
    k: CanonicalKey,
)
    requires
        n >= 1,
        capacity >= 0,
        forall|j: int| 0 <= j < h.len() ==> 0 <= (#[trigger] h[j]).port < n,
        forall|p: int| 0 <= p < n ==> #[trigger] key_port_count(h, k, p) <= 1,
        key_within_window(n, capacity, ttl, h, k),
    ensures
        ({
            let r = cache_run(n, capacity, ttl, h);
            &&& cache_inv(r.entries, n, capacity)
            &&& (forall|p: int| 0 <= p < n ==> #[trigger] key_port_count(h, k, p) >= 0)
            &&& if forall|p: int| 0 <= p < n ==> #[trigger] key_port_count(h, k, p) == 1 {
                &&& emitted_for(r.emitted, k) == seq![
                    Seq::new(n as nat, |p: int| key_port_val(h, k, p)),
                ]
                &&& !has_key(r.entries, k)
            } else if exists|p: int| 0 <= p < n && #[trigger] key_port_count(h, k, p) == 1 {
                &&& has_key(r.entries, k)
                &&& entry_of(r.entries, k).slots.len() == n
                &&& forall|p: int| 0 <= p < n ==> entry_of(r.entries, k).slots[p] == (
                if #[trigger] key_port_count(h, k, p) == 1 {
                    Some(key_port_val(h, k, p))
                } else {
                    None::<ValModel>
                })
                &&& emitted_for(r.emitted, k) == Seq::<Seq<ValModel>>::empty()
            } else {
                &&& !has_key(r.entries, k)
                &&& emitted_for(r.emitted, k) == Seq::<Seq<ValModel>>::empty()
            }
        }),
    decreases h.len(),
{
    let r = cache_run(n, capacity, ttl, h);
    if h.len() == 0 {
        assert(!has_key(r.entries, k)) by {
            if has_key(r.entries, k) {
                let w = choose|i: int|
                    0 <= i < r.entries.len() && (#[trigger] r.entries[i]).key == k;
                assert(false);
            }
        }
        assert(key_port_count(h, k, 0) == 0);
    } else {
        let hp = h.drop_last();
        let a = h.last();
        assert(forall|j: int| 0 <= j < hp.len() ==> hp[j] == h[j]);
        assert forall|p: int| 0 <= p < n implies #[trigger] key_port_count(hp, k, p) <= 1 by {
            assert(key_port_count(h, k, p) >= key_port_count(hp, k, p));
        }
        assert forall|j: int| 0 <= j < hp.len() implies key_retained(
            cache_run(n, capacity, ttl, #[trigger] hp.take(j)).entries,
            n,
            capacity,
            ttl,
            hp[j],
            k,
        ) by {
            assert(hp.take(j) =~= h.take(j));
            assert(hp[j] == h[j]);
        }
        lemma_correlated_join_aux(n, capacity, ttl, hp, k);
        let pre = cache_run(n, capacity, ttl, hp);
        let o = cache_step(pre.entries, n, capacity, ttl, a);
        lemma_cache_step_effects(pre.entries, n, capacity, ttl, a, k);
        assert(h.take(h.len() - 1) =~= hp);
        assert(key_retained(pre.entries, n, capacity, ttl, a, k));
        let es1 = purge(pre.entries, a.now);
        let written = step_written(pre.entries, n, a);

        if a.key != k {
            // counts and values for k are untouched
            assert forall|p: int| #[trigger] key_port_count(h, k, p) == key_port_count(
                hp,
                k,
                p,
            ) by {}
            assert forall|p: int| #[trigger] key_port_val(h, k, p) == key_port_val(
                hp,
                k,
                p,
            ) by {}
            if forall|p: int| 0 <= p < n ==> #[trigger] key_port_count(h, k, p) == 1 {
                assert forall|p: int| 0 <= p < n implies #[trigger] key_port_count(hp, k, p)
                    == 1 by {
                    assert(key_port_count(h, k, p) == 1);
                }
                assert(Seq::new(n as nat, |p: int| key_port_val(h, k, p)) =~= Seq::new(
                    n as nat,
                    |p: int| key_port_val(hp, k, p),
                ));
            } else {
                assert(!(forall|p: int| 0 <= p < n ==> #[trigger] key_port_count(hp, k, p)
                    == 1)) by {
                    let pw = choose|p: int|
                        !(0 <= p < n ==> #[trigger] key_port_count(h, k, p) == 1);
                    assert(key_port_count(hp, k, pw) != 1);
                }
                if exists|p: int| 0 <= p < n && #[trigger] key_port_count(h, k, p) == 1 {
                    let pw = choose|p: int|
                        0 <= p < n && #[trigger] key_port_count(h, k, p) == 1;
                    assert(key_port_count(hp, k, pw) == 1);
                } else {
                    assert(!(exists|p: int|
                        0 <= p < n && #[trigger] key_port_count(hp, k, p) == 1)) by {
                        if exists|p: int|
                            0 <= p < n && #[trigger] key_port_count(hp, k, p) == 1 {
                            let pw = choose|p: int|
                                0 <= p < n && #[trigger] key_port_count(hp, k, p) == 1;
                            assert(key_port_count(h, k, pw) == 1);
                        }
                    }
                }
            }
            assert(emitted_for(r.emitted, k) == emitted_for(pre.emitted, k)) by {
                match o.out {
                    Some(vals) => {
                        assert(r.emitted.drop_last() =~= pre.emitted);
                        assert(r.emitted.last() == (a.key, vals));
                    },
                    None => {},
                }
            }
            if has_key(pre.entries, k) {
                assert(has_key(es1, k));
                assert(has_key(o.entries, k));
                assert(entry_of(o.entries, k) == entry_of(pre.entries, k));
            } else {
                assert(!has_key(o.entries, k)) by {
                    if has_key(o.entries, k) {
                        assert(has_key(es1, k) || a.key == k);
                        assert(has_key(pre.entries, k));
                    }
                }
            }
            assert forall|p: int| 0 <= p < n implies #[trigger] key_port_count(h, k, p)
                >= 0 by {
                assert(key_port_count(hp, k, p) >= 0);
            }
        } else {
            let p0 = a.port;
            assert(key_port_count(h, k, p0) == key_port_count(hp, k, p0) + 1);
            assert(forall|p: int| p != p0 ==> key_port_count(h, k, p) == key_port_count(
                hp,
                k,
                p,
            ));
            assert(forall|p: int| p != p0 ==> key_port_val(h, k, p) == key_port_val(hp, k, p));
            assert(key_port_val(h, k, p0) == a.m);
            assert(key_port_count(hp, k, p0) == 0) by {
                assert(key_port_count(h, k, p0) <= 1);
                assert(key_port_count(hp, k, p0) >= 0);
            }
            assert forall|p: int| 0 <= p < n implies #[trigger] key_port_count(h, k, p)
                >= 0 by {
                assert(key_port_count(hp, k, p) >= 0);
            }
            // the slots the step writes for k
            if has_key(pre.entries, k) {
                assert(exists|p: int| 0 <= p < n && #[trigger] key_port_count(hp, k, p)
                    == 1) by {
                    if forall|p: int| 0 <= p < n ==> #[trigger] key_port_count(hp, k, p)
                        == 1 {
                        assert(!has_key(pre.entries, k));
                    } else if !(exists|p: int|
                        0 <= p < n && #[trigger] key_port_count(hp, k, p) == 1) {
                        assert(!has_key(pre.entries, k));
                    }
                }
                assert(has_key(es1, k));
                assert(entry_of(es1, k) == entry_of(pre.entries, k));
                assert(written == entry_of(pre.entries, k).slots.update(p0, Some(a.m)));
            } else {
                assert(!has_key(es1, k)) by {
                    if has_key(es1, k) {
                        assert(has_key(pre.entries, k));
                    }
                }
                assert(written == Seq::new(n as nat, |i: int| None::<ValModel>).update(
                    p0,
                    Some(a.m),
                ));
                assert(forall|p: int| 0 <= p < n ==> #[trigger] key_port_count(hp, k, p)
                    == 0 || !(forall|p2: int|
                    0 <= p2 < n ==> #[trigger] key_port_count(hp, k, p2) == 1) );
            }
            // pointwise description of the written slots
            assert forall|p: int| 0 <= p < n implies written[p] == (if #[trigger] key_port_count(
                h,
                k,
                p,
            ) == 1 {
                Some(key_port_val(h, k, p))
            } else {
                None::<ValModel>
            }) by {
                if p == p0 {
                } else {
                    if has_key(pre.entries, k) {
                        assert(entry_of(pre.entries, k).slots[p] == (if key_port_count(
                            hp,
                            k,
                            p,
                        ) == 1 {
                            Some(key_port_val(hp, k, p))
                        } else {
                            None::<ValModel>
                        }));
                    } else {
                        if key_port_count(hp, k, p) == 1 {
                            assert(has_key(pre.entries, k) || (forall|p2: int|
                                0 <= p2 < n ==> #[trigger] key_port_count(hp, k, p2) == 1));
                            if forall|p2: int|
                                0 <= p2 < n ==> #[trigger] key_port_count(hp, k, p2) == 1 {
                                assert(key_port_count(hp, k, p0) == 1);
                            }
                        }
                    }
                }
            }
            if forall|p: int| 0 <= p < n ==> #[trigger] key_port_count(h, k, p) == 1 {
                // this arrival completes the join
                assert(all_filled(written)) by {
                    assert forall|p: int| 0 <= p < written.len() implies (
                    #[trigger] written[p]) is Some by {
                        assert(key_port_count(h, k, p) == 1);
                    }
                }
                assert(o.out == Some(filled_with_unit(written)));
                assert forall|p: int| 0 <= p < n implies filled_with_unit(written)[p]
                    == key_port_val(h, k, p) by {
                    assert(key_port_count(h, k, p) == 1);
                    assert(written[p] == Some(key_port_val(h, k, p)));
                }
                assert(filled_with_unit(written) =~= Seq::new(
                    n as nat,
                    |p: int| key_port_val(h, k, p),
                ));
                assert(emitted_for(r.emitted, k) =~= emitted_for(pre.emitted, k).push(
                    filled_with_unit(written),
                )) by {
                    assert(r.emitted.drop_last() =~= pre.emitted);
                }
                assert(emitted_for(pre.emitted, k) =~= Seq::<Seq<ValModel>>::empty());
                assert(emitted_for(r.emitted, k) =~= seq![
                    Seq::new(n as nat, |p: int| key_port_val(h, k, p)),
                ]);
                assert(!has_key(r.entries, k));
            } else {
                // still waiting for at least one port
                let q = choose|p: int| 0 <= p < n && #[trigger] key_port_count(h, k, p) != 1;
                assert(key_port_count(h, k, q) == 0) by {
                    assert(key_port_count(h, k, q) <= 1 && key_port_count(h, k, q) >= 0);
                }
                assert(!all_filled(written)) by {
                    assert(written[q] is None);
                }
                assert(o.out is None);
                assert(emitted_for(r.emitted, k) == emitted_for(pre.emitted, k));
                assert(has_key(o.entries, k)) by {
                    assert(key_retained(pre.entries, n, capacity, ttl, a, k));
                }
                assert(entry_of(o.entries, k).slots == written);
                assert(exists|p: int| 0 <= p < n && #[trigger] key_port_count(h, k, p)
                    == 1) by {
                    assert(key_port_count(h, k, p0) == 1);
                }
                assert(emitted_for(pre.emitted, k) =~= Seq::<Seq<ValModel>>::empty());
            }
        }
    }
}

/// Context-correlated join correctness: over any arrival history from an
/// empty cache — whatever the permutation of arrival order across ports —
/// if a key's values arrive exactly once per port and the key stays inside
/// the TTL/capacity window, the machine emits exactly one aggregate for that
/// key, pairing each port's value by key rather than by arrival order, and
/// no entry for the key remains pending.
pub proof fn lemma_correlated_join_correctness(
    n: int,
    capacity: int,
    ttl: u64,
    h: Seq<CArrival>,
    k: CanonicalKey,
)
    requires
        n >= 1,
        capacity >= 0,
        forall|j: int| 0 <= j < h.len() ==> 0 <= (#[trigger] h[j]).port < n,
        forall|p: int| 0 <= p < n ==> #[trigger] key_port_count(h, k, p) == 1,
        key_within_window(n, capacity, ttl, h, k),
    ensures
        ({
            let r = cache_run(n, capacity, ttl, h);
            &&& emitted_for(r.emitted, k) == seq![
                Seq::new(n as nat, |p: int| key_port_val(h, k, p)),
            ]
            &&& !has_key(r.entries, k)
        }),
{
    lemma_correlated_join_aux(n, capacity, ttl, h, k);
}

/// Eviction: once a pending entry's time-to-live has elapsed, a late
/// arrival for its key finds nothing — the step purges the stale entry,
/// starts a brand-new entry holding only the late value, and (with more
/// than one port) emits nothing: the original partial data never appears in
/// any output.
pub proof fn lemma_ttl_eviction(
    es: Seq<EntryModel>,
    n: int,
    capacity: int,
    ttl: u64,
    a: CArrival,
)
    requires
        cache_inv(es, n, capacity),
        n >= 2,
        capacity >= 1,
        0 <= a.port < n,
        has_key(es, a.key),
        entry_of(es, a.key).deadline <= a.now,
    ensures
        ({
            let o = cache_step(es, n, capacity, ttl, a);
            &&& o.out is None
            &&& has_key(o.entries, a.key) ==> entry_of(o.entries, a.key).slots == Seq::new(
                n as nat,
                |i: int| None::<ValModel>,
            ).update(a.port, Some(a.m))
        }),
{
    let o = cache_step(es, n, capacity, ttl, a);
    lemma_purge_key(es, a.now, a.key);
    assert(!has_key(purge(es, a.now), a.key));
    lemma_cache_step_effects(es, n, capacity, ttl, a, a.key);
    let written = step_written(es, n, a);
    assert(written == Seq::new(n as nat, |i: int| None::<ValModel>).update(a.port, Some(a.m)));
    let q: int = if a.port == 0 {
        1
    } else {
        0
    };
    assert(!all_filled(written)) by {
        assert(written[q] is None);
    }
}

/// Capacity bound: however many distinct keys a history inserts, the cache
/// never holds more than `capacity` pending entries — excess entries are
/// evicted, oldest first, rather than growing memory without bound.
pub proof fn lemma_capacity_bound(n: int, capacity: int, ttl: u64, h: Seq<CArrival>)
    requires
        n >= 1,
        capacity >= 0,
        forall|j: int| 0 <= j < h.len() ==> 0 <= (#[trigger] h[j]).port < n,
    ensures
        cache_inv(cache_run(n, capacity, ttl, h).entries, n, capacity),
        cache_run(n, capacity, ttl, h).entries.len() <= capacity,
    decreases h.len(),
{
    if h.len() > 0 {
        let hp = h.drop_last();
        assert(forall|j: int| 0 <= j < hp.len() ==> hp[j] == h[j]);
        lemma_capacity_bound(n, capacity, ttl, hp);
        lemma_cache_step_effects(
            cache_run(n, capacity, ttl, hp).entries,
            n,
            capacity,
            ttl,
            h.last(),
            h.last().key,
        );
    }
}

} // verus!
