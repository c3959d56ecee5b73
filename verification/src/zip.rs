//! The N-way join nodes: a common engine that reassembles values arriving on
//! `in1` .. `inN` into one aligned tuple, by either the positional strategy
//! (per-port FIFO queues, arrival order only) or the context-correlated
//! strategy, selected by configuration; and the two emission shapes over it —
//! an array, or a keyed record with one configured field name per port.
//!
//! The context-correlated strategy is the bounded cache machine: arrivals are
//! matched by canonical key in a map limited by `capacity` pending entries
//! and a per-entry `ttl_sec` time-to-live, tolerant of arbitrary inter-port
//! arrival order while a key stays inside that window. The clock enters as a
//! plain reading passed with each arrival. (The queue-based scanner variant
//! remains available as [`crate::correlated::CorrelatedJoin`] for callers
//! that want its drop-on-mismatch discipline.)

use vstd::prelude::*;

use crate::cache::{cache_step, CArrival, CorrelationCache, EntryModel};
use crate::errors::EngineError;
use crate::ports::{find_in_port, in_port_of};
use crate::positional::{pos_step, PositionalJoin, PosState};
use crate::record::record_set;
use crate::token::ContextToken;
use crate::value::{lemma_seq_model, seq_model, ValModel, Value};

verus! {

broadcast use lemma_seq_model;

/// The configurable join engine: `n` input ports, a strategy switch, and the
/// bounds of the context-correlated cache. Changing any part of the
/// configuration resets all pending state.
pub struct SyncJoin {
    n: usize,
    use_ctx: bool,
    capacity: usize,
    ttl_sec: u64,
    pos: PositionalJoin,
    cache: CorrelationCache,
}

impl SyncJoin {
    /// The number of ports.
    pub closed spec fn ports(self) -> int {
        self.n as int
    }

    /// Whether arrivals are matched by canonical key rather than position.
    pub closed spec fn is_ctx(self) -> bool {
        self.use_ctx
    }

    /// The maximum number of concurrently pending cache entries.
    pub closed spec fn cap(self) -> int {
        self.capacity as int
    }

    /// The per-entry time-to-live of the cache, in seconds.
    pub closed spec fn ttl(self) -> u64 {
        self.ttl_sec
    }

    /// The pending state of the positional strategy.
    pub closed spec fn pos_queues(self) -> Seq<Seq<ValModel>> {
        self.pos.queues_model()
    }

    /// The pending entries of the context-correlated cache, oldest first.
    pub closed spec fn cache_entries(self) -> Seq<EntryModel> {
        self.cache.entries_model()
    }

    /// Internal consistency.
    pub closed spec fn wf(self) -> bool {
        &&& self.n >= 1
        &&& self.pos.wf()
        &&& self.cache.wf()
        &&& self.pos.ports() == self.n
        &&& self.cache.ports() == self.n
        &&& self.cache.cap() == self.capacity
        &&& self.cache.ttl() == self.ttl_sec
    }

    /// A join over `n` ports with the chosen strategy and cache bounds;
    /// fewer than one port is a configuration error.
    pub fn new(n: usize, use_ctx: bool, capacity: usize, ttl_sec: u64) -> (r: Result<
        SyncJoin,
        EngineError,
    >)
        ensures
            match r {
                Ok(j) => {
                    &&& n >= 1
                    &&& j.wf()
                    &&& j.ports() == n
                    &&& j.is_ctx() == use_ctx
                    &&& j.cap() == capacity
                    &&& j.ttl() == ttl_sec
                    &&& forall|i: int| 0 <= i < n ==> (#[trigger] j.pos_queues()[i]).len() == 0
                    &&& j.cache_entries() == Seq::<EntryModel>::empty()
                },
                Err(e) => n < 1 && e.is_config(),
            },
    {
        if n < 1 {
            return Err(EngineError::InvalidConfig(String::from_str("n must be at least 1")));
        }
        let pos = match PositionalJoin::new(n) {
            Ok(p) => p,
            Err(_) => vstd::pervasive::unreached(),
        };
        let cache = match CorrelationCache::new(n, capacity, ttl_sec) {
            Ok(c) => c,
            Err(_) => vstd::pervasive::unreached(),
        };
        Ok(SyncJoin { n, use_ctx, capacity, ttl_sec, pos, cache })
    }

    /// Applies a configuration: fewer than one port is rejected with the
    /// state untouched; any change of port count, strategy or cache bounds
    /// resets all pending state; an unchanged configuration leaves
    /// everything alone.
    pub fn configure(&mut self, n: usize, use_ctx: bool, capacity: usize, ttl_sec: u64) -> (r:
        Result<(), EngineError>)
        requires
            old(self).wf(),
        ensures
            final(self).wf(),
            match r {
                Ok(()) => {
                    &&& n >= 1
                    &&& final(self).ports() == n
                    &&& final(self).is_ctx() == use_ctx
                    &&& final(self).cap() == capacity
                    &&& final(self).ttl() == ttl_sec
                    &&& if n == old(self).ports() && use_ctx == old(self).is_ctx() && capacity
                        == old(self).cap() && ttl_sec == old(self).ttl() {
                        final(self).pos_queues() == old(self).pos_queues()
                            && final(self).cache_entries() == old(self).cache_entries()
                    } else {
                        (forall|i: int|
                            0 <= i < n ==> (#[trigger] final(self).pos_queues()[i]).len() == 0)
                            && final(self).cache_entries() == Seq::<EntryModel>::empty()
                    }
                },
                Err(e) => {
                    &&& n < 1
                    &&& e.is_config()
                    &&& final(self).ports() == old(self).ports()
                    &&& final(self).is_ctx() == old(self).is_ctx()
                    &&& final(self).cap() == old(self).cap()
                    &&& final(self).ttl() == old(self).ttl()
                    &&& final(self).pos_queues() == old(self).pos_queues()
                    &&& final(self).cache_entries() == old(self).cache_entries()
                },
            },
    {
        if n < 1 {
            return Err(EngineError::InvalidConfig(String::from_str("n must be at least 1")));
        }
        if n == self.n && use_ctx == self.use_ctx && capacity == self.capacity && ttl_sec
            == self.ttl_sec {
            return Ok(());
        }
        let pos = match PositionalJoin::new(n) {
            Ok(p) => p,
            Err(_) => vstd::pervasive::unreached(),
        };
        let cache = match CorrelationCache::new(n, capacity, ttl_sec) {
            Ok(c) => c,
            Err(_) => vstd::pervasive::unreached(),
        };
        self.n = n;
        self.use_ctx = use_ctx;
        self.capacity = capacity;
        self.ttl_sec = ttl_sec;
        self.pos = pos;
        self.cache = cache;
        Ok(())
    }

    /// Clears all pending state; used on stop.
    pub fn stop(&mut self)
        requires
            old(self).wf(),
        ensures
            final(self).wf(),
            final(self).ports() == old(self).ports(),
            final(self).is_ctx() == old(self).is_ctx(),
            final(self).cap() == old(self).cap(),
            final(self).ttl() == old(self).ttl(),
            forall|i: int| 0 <= i < old(self).ports() ==> (#[trigger] final(
                self).pos_queues()[i]).len() == 0,
            final(self).cache_entries() == Seq::<EntryModel>::empty(),
    {
        self.pos.reset();
        self.cache.reset();
    }

    /// Processes the arrival of `value` under `token` on the pin named
    /// `pin`, at clock reading `now`. An unrecognized pin name is a value
    /// error; otherwise the arrival feeds the selected strategy, and a
    /// completed aligned tuple is returned in port order. In the
    /// context-correlated strategy the arrival is one step of the bounded
    /// cache machine; the positional strategy ignores the clock.
    pub fn process(&mut self, pin: &str, token: ContextToken, value: Value, now: u64) -> (r:
        Result<Option<Vec<Value>>, EngineError>)
        requires
            old(self).wf(),
        ensures
            final(self).wf(),
            final(self).ports() == old(self).ports(),
            final(self).is_ctx() == old(self).is_ctx(),
            final(self).cap() == old(self).cap(),
            final(self).ttl() == old(self).ttl(),
            match r {
                Err(e) => {
                    &&& in_port_of(pin@, old(self).ports()) is None
                    &&& e.is_value()
                    &&& final(self).pos_queues() == old(self).pos_queues()
                    &&& final(self).cache_entries() == old(self).cache_entries()
                },
                Ok(out) => in_port_of(pin@, old(self).ports()) matches Some(port) && {
                    if old(self).is_ctx() {
                        let a = CArrival {
                            now,
                            port,
                            key: token.key(),
                            m: value.model(),
                        };
                        let o = cache_step(
                            old(self).cache_entries(),
                            old(self).ports(),
                            old(self).cap(),
                            old(self).ttl(),
                            a,
                        );
                        &&& final(self).pos_queues() == old(self).pos_queues()
                        &&& final(self).cache_entries() == o.entries
                        &&& match out {
                            Some(vals) => o.out == Some(seq_model(vals@)) && vals@.len()
                                == old(self).ports(),
                            None => o.out is None,
                        }
                    } else {
                        let s0 = PosState {
                            queues: old(self).pos_queues(),
                            emitted: Seq::empty(),
                        };
                        let s1 = pos_step(s0, port, value.model());
                        &&& final(self).cache_entries() == old(self).cache_entries()
                        &&& final(self).pos_queues() == s1.queues
                        &&& match out {
                            Some(tuple) => s1.emitted.len() == 1 && seq_model(tuple@)
                                == s1.emitted[0] && tuple@.len() == old(self).ports(),
                            None => s1.emitted.len() == 0,
                        }
                    }
                },
            },
    {
        let port = match find_in_port(pin, self.n) {
            Some(p) => p,
            None => {
                return Err(EngineError::InvalidValue(String::from_str("unrecognized input pin")));
            },
        };
        proof {
            assert(port < self.n);
        }
        if self.use_ctx {
            match self.cache.insert(token, port, value, now) {
                Ok(out) => Ok(out),
                Err(_) => vstd::pervasive::unreached(),
            }
        } else {
            proof {
                old(self).pos.lemma_wf_len();
            }
            match self.pos.push(port, value) {
                Ok(out) => Ok(out),
                Err(_) => vstd::pervasive::unreached(),
            }
        }
    }

    /// Processes an arrival and wraps a completed tuple as one array value,
    /// the emission shape of the array-producing join node: the same machine
    /// step as [`SyncJoin::process`], with `Some(tuple)` becoming the list
    /// value holding the tuple.
    pub fn process_to_array(&mut self, pin: &str, token: ContextToken, value: Value, now: u64)
        -> (r: Result<Option<Value>, EngineError>)
        requires
            old(self).wf(),
        ensures
            final(self).wf(),
            final(self).ports() == old(self).ports(),
            final(self).is_ctx() == old(self).is_ctx(),
            final(self).cap() == old(self).cap(),
            final(self).ttl() == old(self).ttl(),
            match r {
                Err(e) => {
                    &&& in_port_of(pin@, old(self).ports()) is None
                    &&& e.is_value()
                    &&& final(self).pos_queues() == old(self).pos_queues()
                    &&& final(self).cache_entries() == old(self).cache_entries()
                },
                Ok(out) => in_port_of(pin@, old(self).ports()) matches Some(port) && {
                    if old(self).is_ctx() {
                        let a = CArrival {
                            now,
                            port,
                            key: token.key(),
                            m: value.model(),
                        };
                        let o = cache_step(
                            old(self).cache_entries(),
                            old(self).ports(),
                            old(self).cap(),
                            old(self).ttl(),
                            a,
                        );
                        &&& final(self).pos_queues() == old(self).pos_queues()
                        &&& final(self).cache_entries() == o.entries
                        &&& match out {
                            Some(v) => o.out matches Some(vals) && v.model()
                                == ValModel::List(vals) && vals.len() == old(self).ports(),
                            None => o.out is None,
                        }
                    } else {
                        let s0 = PosState {
                            queues: old(self).pos_queues(),
                            emitted: Seq::empty(),
                        };
                        let s1 = pos_step(s0, port, value.model());
                        &&& final(self).cache_entries() == old(self).cache_entries()
                        &&& final(self).pos_queues() == s1.queues
                        &&& match out {
                            Some(v) => s1.emitted.len() == 1 && v.model() == ValModel::List(
                                s1.emitted[0],
                            ) && s1.emitted[0].len() == old(self).ports(),
                            None => s1.emitted.len() == 0,
                        }
                    }
                },
            },
    {
        match self.process(pin, token, value, now) {
            Ok(Some(tuple)) => {
                let v = Value::List(tuple);
                Ok(Some(v))
            },
            Ok(None) => Ok(None),
            Err(e) => Err(e),
        }
    }
}

/// The record that zipping `vals` against the configured `names` builds:
/// fields are set in port order, a repeated name keeping its first position
/// with the later port's value.
pub open spec fn zip_record(names: Seq<Seq<char>>, vals: Seq<ValModel>) -> Seq<
    (Seq<char>, ValModel),
>
    decreases vals.len(),
{
    if vals.len() == 0 || names.len() < vals.len() {
        Seq::empty()
    } else {
        record_set(
            zip_record(names, vals.drop_last()),
            names[vals.len() - 1],
            vals.last(),
        )
    }
}

/// Builds the record value for a completed tuple: field `i` is named
/// `names[i]` and holds `vals[i]`.
pub fn build_record(names: &Vec<String>, vals: Vec<Value>) -> (r: Value)
    requires
        names@.len() >= vals@.len(),
    ensures
        r.model() == ValModel::Record(
            zip_record(crate::nested::keys_model(names@), seq_model(vals@)),
        ),
{
    broadcast use crate::nested::lemma_keys_model;

    let ghost orig = vals@;
    proof {
        assert(vals@.len() <= usize::MAX) by {
            assert(vals@.len() == vals.len());
        }
    }
    let ghost nm = crate::nested::keys_model(names@);
    let ghost vm = seq_model(vals@);
    let mut out = Value::empty_record();
    let mut rest = vals;
    let mut i: usize = 0;
    proof {
        assert(zip_record(nm, vm.take(0)) =~= Seq::<(Seq<char>, ValModel)>::empty());
        assert(rest@ =~= orig.skip(0));
    }
    while rest.len() > 0
        invariant
            i + rest@.len() == orig.len(),
            i <= orig.len(),
            orig.len() <= usize::MAX,
            orig.len() == vm.len(),
            vm.len() <= nm.len(),
            nm.len() == names@.len(),
            nm == crate::nested::keys_model(names@),
            vm == seq_model(orig),
            rest@ == orig.skip(i as int),
            out.model() == ValModel::Record(zip_record(nm, vm.take(i as int))),
        decreases rest@.len(),
    {
        proof {
            crate::nested::lemma_keys_model(names@);
            crate::value::lemma_seq_model(orig);
            assert(rest@[0] == orig[i as int]);
            assert(vm.take(i + 1).drop_last() =~= vm.take(i as int));
            assert(vm.take(i + 1).last() == vm[i as int]);
            assert(vm[i as int] == orig[i as int].model());
            assert(nm[i as int] == names@[i as int]@);
        }
        let v = rest.remove(0);
        let name = names[i].clone();
        match out.set_field(name, v) {
            Ok(()) => {},
            Err(_) => vstd::pervasive::unreached(),
        }
        proof {
            assert(rest@ =~= orig.skip(i + 1));
        }
        i = i + 1;
    }
    proof {
        assert(vm.take(vm.len() as int) =~= vm);
    }
    out
}

/// The keyed join node: the same machine as the array-producing join, but
/// each port is associated with a configured field name, and a completed
/// tuple is emitted as a keyed record instead of a positional array.
pub struct ZipToObject {
    join: SyncJoin,
    names: Vec<String>,
}

impl ZipToObject {
    /// The number of ports.
    pub closed spec fn ports(self) -> int {
        self.join.ports()
    }

    /// Whether arrivals are matched by canonical key rather than position.
    pub closed spec fn is_ctx(self) -> bool {
        self.join.is_ctx()
    }

    /// The maximum number of concurrently pending cache entries.
    pub closed spec fn cap(self) -> int {
        self.join.cap()
    }

    /// The per-entry time-to-live of the cache, in seconds.
    pub closed spec fn ttl(self) -> u64 {
        self.join.ttl()
    }

    /// The configured field name per port.
    pub closed spec fn field_names(self) -> Seq<Seq<char>> {
        crate::nested::keys_model(self.names@)
    }

    /// The pending state of the positional strategy.
    pub closed spec fn pos_queues(self) -> Seq<Seq<ValModel>> {
        self.join.pos_queues()
    }

    /// The pending entries of the context-correlated cache, oldest first.
    pub closed spec fn cache_entries(self) -> Seq<EntryModel> {
        self.join.cache_entries()
    }

    /// Internal consistency.
    pub closed spec fn wf(self) -> bool {
        &&& self.join.wf()
        &&& self.names@.len() == self.join.ports()
    }

    /// A keyed join over `n` ports: one field name is required per port, and
    /// a missing (empty) name, a name count other than `n`, or fewer than
    /// one port is a configuration error.
    pub fn new(n: usize, use_ctx: bool, capacity: usize, ttl_sec: u64, names: Vec<String>) -> (r:
        Result<ZipToObject, EngineError>)
        ensures
            match r {
                Ok(z) => {
                    &&& n >= 1
                    &&& names@.len() == n
                    &&& (forall|i: int| 0 <= i < n ==> (#[trigger] names@[i])@.len() > 0)
                    &&& z.wf()
                    &&& z.ports() == n
                    &&& z.is_ctx() == use_ctx
                    &&& z.cap() == capacity
                    &&& z.ttl() == ttl_sec
                    &&& z.field_names() == crate::nested::keys_model(names@)
                    &&& forall|i: int| 0 <= i < n ==> (#[trigger] z.pos_queues()[i]).len() == 0
                    &&& z.cache_entries() == Seq::<EntryModel>::empty()
                },
                Err(e) => e.is_config() && (n < 1 || names@.len() != n || exists|i: int|
                    0 <= i < n && (#[trigger] names@[i])@.len() == 0),
            },
    {
        if n < 1 {
            return Err(EngineError::InvalidConfig(String::from_str("n must be at least 1")));
        }
        if names.len() != n {
            return Err(EngineError::InvalidConfig(String::from_str(
                "one field name is required per port",
            )));
        }
        let mut i: usize = 0;
        while i < n
            invariant
                i <= n,
                n == names@.len(),
                forall|j: int| 0 <= j < i ==> (#[trigger] names@[j])@.len() > 0,
            decreases n - i,
        {
            if names[i].as_str().is_empty() {
                return Err(EngineError::InvalidConfig(String::from_str(
                    "a per-port field name is missing",
                )));
            }
            i = i + 1;
        }
        let join = match SyncJoin::new(n, use_ctx, capacity, ttl_sec) {
            Ok(j) => j,
            Err(_) => vstd::pervasive::unreached(),
        };
        Ok(ZipToObject { join, names })
    }

    /// Applies a configuration, under the same validation as construction:
    /// an invalid configuration is rejected with the state untouched; an
    /// unchanged configuration (field names included) leaves the pending
    /// state alone; any change resets it.
    pub fn configure(
        &mut self,
        n: usize,
        use_ctx: bool,
        capacity: usize,
        ttl_sec: u64,
        names: Vec<String>,
    ) -> (r: Result<(), EngineError>)
        requires
            old(self).wf(),
        ensures
            final(self).wf(),
            match r {
                Ok(()) => {
                    &&& n >= 1
                    &&& names@.len() == n
                    &&& (forall|i: int| 0 <= i < n ==> (#[trigger] names@[i])@.len() > 0)
                    &&& final(self).ports() == n
                    &&& final(self).is_ctx() == use_ctx
                    &&& final(self).cap() == capacity
                    &&& final(self).ttl() == ttl_sec
                    &&& final(self).field_names() == crate::nested::keys_model(names@)
                    &&& if n == old(self).ports() && use_ctx == old(self).is_ctx() && capacity
                        == old(self).cap() && ttl_sec == old(self).ttl()
                        && crate::nested::keys_model(names@) == old(self).field_names() {
                        final(self).pos_queues() == old(self).pos_queues()
                            && final(self).cache_entries() == old(self).cache_entries()
                    } else {
                        (forall|i: int|
                            0 <= i < n ==> (#[trigger] final(self).pos_queues()[i]).len() == 0)
                            && final(self).cache_entries() == Seq::<EntryModel>::empty()
                    }
                },
                Err(e) => {
                    &&& e.is_config()
                    &&& (n < 1 || names@.len() != n || exists|i: int|
                        0 <= i < n && (#[trigger] names@[i])@.len() == 0)
                    &&& final(self).ports() == old(self).ports()
                    &&& final(self).is_ctx() == old(self).is_ctx()
                    &&& final(self).cap() == old(self).cap()
                    &&& final(self).ttl() == old(self).ttl()
                    &&& final(self).field_names() == old(self).field_names()
                    &&& final(self).pos_queues() == old(self).pos_queues()
                    &&& final(self).cache_entries() == old(self).cache_entries()
                },
            },
    {
        broadcast use crate::nested::lemma_keys_model;

        if n < 1 {
            return Err(EngineError::InvalidConfig(String::from_str("n must be at least 1")));
        }
        if names.len() != n {
            return Err(EngineError::InvalidConfig(String::from_str(
                "one field name is required per port",
            )));
        }
        let mut i: usize = 0;
        while i < n
            invariant
                i <= n,
                n == names@.len(),
                self.join == old(self).join,
                self.names == old(self).names,
                old(self).wf(),
                forall|j: int| 0 <= j < i ==> (#[trigger] names@[j])@.len() > 0,
            decreases n - i,
        {
            if names[i].as_str().is_empty() {
                return Err(EngineError::InvalidConfig(String::from_str(
                    "a per-port field name is missing",
                )));
            }
            i = i + 1;
        }

        // Are the field names unchanged?
        let mut same_names = self.names.len() == names.len();
        let mut i: usize = 0;
        while i < names.len() && same_names
            invariant
                i <= names@.len(),
                same_names ==> self.names@.len() == names@.len() && forall|j: int|
                    0 <= j < i ==> (#[trigger] self.names@[j])@ == names@[j]@,
                !same_names ==> self.names@.len() != names@.len() || exists|j: int|
                    0 <= j < names@.len() && (#[trigger] self.names@[j])@ != names@[j]@,
                self.names@.len() == old(self).field_names().len(),
                forall|j: int| 0 <= j < self.names@.len() ==> old(self).field_names()[j] == (
                #[trigger] self.names@[j])@,
            decreases names@.len() - i,
    {
            if !(self.names[i] == names[i]) {
                same_names = false;
            } else {
                proof {
                    assert(self.names@[i as int]@ == names@[i as int]@);
                }
            }
            i = i + 1;
        }
        proof {
            if same_names {
                assert(crate::nested::keys_model(names@) =~= old(self).field_names());
            } else {
                if crate::nested::keys_model(names@) == old(self).field_names() {
                    let jw = choose|j: int|
                        0 <= j < names@.len() && (#[trigger] self.names@[j])@ != names@[j]@;
                    assert(old(self).field_names()[jw] == names@[jw]@);
                    assert(false);
                }
            }
        }

        match self.join.configure(n, use_ctx, capacity, ttl_sec) {
            Ok(()) => {},
            Err(_) => vstd::pervasive::unreached(),
        }
        if !same_names {
            // a changed name set resets the pending state as well
            self.join.stop();
            self.names = names;
        } else {
            self.names = names;
        }
        Ok(())
    }

    /// Clears all pending state; used on stop.
    pub fn stop(&mut self)
        requires
            old(self).wf(),
        ensures
            final(self).wf(),
            final(self).ports() == old(self).ports(),
            final(self).is_ctx() == old(self).is_ctx(),
            final(self).cap() == old(self).cap(),
            final(self).ttl() == old(self).ttl(),
            final(self).field_names() == old(self).field_names(),
            forall|i: int| 0 <= i < old(self).ports() ==> (#[trigger] final(
                self).pos_queues()[i]).len() == 0,
            final(self).cache_entries() == Seq::<EntryModel>::empty(),
    {
        self.join.stop();
    }

    /// Processes the arrival of `value` under `token` on the pin named
    /// `pin`, at clock reading `now`; a completed tuple is returned as a
    /// keyed record, field `i` carrying the configured name of port `i` and
    /// that port's value.
    pub fn process(&mut self, pin: &str, token: ContextToken, value: Value, now: u64) -> (r:
        Result<Option<Value>, EngineError>)
        requires
            old(self).wf(),
        ensures
            final(self).wf(),
            final(self).ports() == old(self).ports(),
            final(self).is_ctx() == old(self).is_ctx(),
            final(self).cap() == old(self).cap(),
            final(self).ttl() == old(self).ttl(),
            final(self).field_names() == old(self).field_names(),
            match r {
                Err(e) => {
                    &&& in_port_of(pin@, old(self).ports()) is None
                    &&& e.is_value()
                    &&& final(self).pos_queues() == old(self).pos_queues()
                    &&& final(self).cache_entries() == old(self).cache_entries()
                },
                Ok(out) => in_port_of(pin@, old(self).ports()) matches Some(port) && {
                    if old(self).is_ctx() {
                        let a = CArrival {
                            now,
                            port,
                            key: token.key(),
                            m: value.model(),
                        };
                        let o = cache_step(
                            old(self).cache_entries(),
                            old(self).ports(),
                            old(self).cap(),
                            old(self).ttl(),
                            a,
                        );
                        &&& final(self).pos_queues() == old(self).pos_queues()
                        &&& final(self).cache_entries() == o.entries
                        &&& match out {
                            Some(v) => o.out matches Some(vals) && v.model()
                                == ValModel::Record(
                                zip_record(old(self).field_names(), vals),
                            ),
                            None => o.out is None,
                        }
                    } else {
                        let s0 = PosState {
                            queues: old(self).pos_queues(),
                            emitted: Seq::empty(),
                        };
                        let s1 = pos_step(s0, port, value.model());
                        &&& final(self).cache_entries() == old(self).cache_entries()
                        &&& final(self).pos_queues() == s1.queues
                        &&& match out {
                            Some(v) => s1.emitted.len() == 1 && v.model() == ValModel::Record(
                                zip_record(old(self).field_names(), s1.emitted[0]),
                            ),
                            None => s1.emitted.len() == 0,
                        }
                    }
                },
            },
    {
        match self.join.process(pin, token, value, now) {
            Ok(Some(tuple)) => {
                proof {
                    assert(seq_model(tuple@).len() == old(self).ports());
                }
                let v = build_record(&self.names, tuple);
                Ok(Some(v))
            },
            Ok(None) => Ok(None),
            Err(e) => Err(e),
        }
    }
}

} // verus!
