//! Context tokens: immutable, stackable correlation handles carried alongside
//! every value that flows through the graph. A token is a run identifier plus
//! an ordered stack of map frames; push and pop produce new tokens, the
//! original is never mutated.

use vstd::prelude::*;

use crate::errors::EngineError;

verus! {

/// One branch of a fan-out: element `index` of a run of `total` elements.
/// Well-formed frames satisfy `index < total` (so `total >= 1`).
#[derive(Clone, Copy, PartialEq, Eq, Structural, Debug)]
pub struct MapFrame {
    pub index: usize,
    pub total: usize,
}

impl MapFrame {
    /// Frame invariant: the index lies inside the declared run.
    pub open spec fn wf(self) -> bool {
        self.index < self.total
    }
}

/// The canonical key of a token: the run identifier together with the whole
/// frame stack. Two tokens with equal keys denote the same logical item
/// observed on different branches; the key is injective over distinct stacks
/// by construction.
pub type CanonicalKey = (u64, Seq<MapFrame>);

/// The key that results from pushing one frame onto `k`.
pub open spec fn pushed_key(k: CanonicalKey, index: usize, total: usize) -> CanonicalKey {
    (k.0, k.1.push(MapFrame { index, total }))
}

/// The key that results from popping the top frame of `k`.
pub open spec fn popped_key(k: CanonicalKey) -> CanonicalKey {
    (k.0, k.1.drop_last())
}

/// A correlation handle: an opaque run identifier plus a LIFO stack of map
/// frames. The top of the stack is the last element of `frames`.
#[derive(Debug)]
pub struct ContextToken {
    pub id: u64,
    pub frames: Vec<MapFrame>,
}

impl ContextToken {
    /// The token's canonical key: run identifier plus the full frame stack.
    pub open spec fn key(self) -> CanonicalKey {
        (self.id, self.frames@)
    }

    /// Token invariant: every frame on the stack is well-formed.
    pub open spec fn wf(self) -> bool {
        forall|i: int| 0 <= i < self.frames@.len() ==> (#[trigger] self.frames@[i]).wf()
    }

    /// A fresh token with an empty frame stack.
    pub fn new(id: u64) -> (t: ContextToken)
        ensures
            t.id == id,
            t.frames@ == Seq::<MapFrame>::empty(),
            t.wf(),
    {
        ContextToken { id, frames: Vec::new() }
    }

    /// An identical copy of this token (tokens are value-like and cheap to
    /// copy; they are carried alongside each emitted value).
    pub fn duplicate(&self) -> (r: ContextToken)
        ensures
            r.id == self.id,
            r.frames@ == self.frames@,
            r.key() == self.key(),
    {
        let mut frames: Vec<MapFrame> = Vec::new();
        let mut i: usize = 0;
        while i < self.frames.len()
            invariant
                i <= self.frames.len(),
                frames@ == self.frames@.take(i as int),
            decreases self.frames.len() - i,
        {
            frames.push(self.frames[i]);
            proof {
                assert(frames@ =~= self.frames@.take(i + 1 as int));
            }
            i = i + 1;
        }
        proof {
            assert(frames@ =~= self.frames@);
        }
        ContextToken { id: self.id, frames }
    }

    /// Pushes a frame `(index, total)` and returns the new token; fails with
    /// `InvalidValue` when the index is not inside the declared run.
    pub fn push_frame(&self, index: usize, total: usize) -> (r: Result<ContextToken, EngineError>)
        ensures
            match r {
                Ok(t) => {
                    &&& index < total
                    &&& t.key() == pushed_key(self.key(), index, total)
                    &&& (self.wf() ==> t.wf())
                },
                Err(e) => index >= total && e.is_value(),
            },
    {
        if index >= total {
            return Err(EngineError::InvalidValue(String::from_str(
                "map frame index must be less than the run length",
            )));
        }
        let t = self.duplicate();
        let mut frames = t.frames;
        frames.push(MapFrame { index, total });
        let out = ContextToken { id: self.id, frames };
        proof {
            assert(out.wf() <== self.wf()) by {
                if self.wf() {
                    assert(forall|i: int|
                        0 <= i < out.frames@.len() ==> (#[trigger] out.frames@[i]).wf());
                }
            }
        }
        Ok(out)
    }

    /// Pops the top frame and returns the new token; popping a frame that was
    /// never pushed is a programming error, surfaced as `InvalidValue`.
    pub fn pop_frame(&self) -> (r: Result<ContextToken, EngineError>)
        ensures
            match r {
                Ok(t) => {
                    &&& self.frames@.len() > 0
                    &&& t.key() == popped_key(self.key())
                    &&& (self.wf() ==> t.wf())
                },
                Err(e) => self.frames@.len() == 0 && e.is_value(),
            },
    {
        if self.frames.len() == 0 {
            return Err(EngineError::InvalidValue(String::from_str(
                "no map frame to pop",
            )));
        }
        let t = self.duplicate();
        let mut frames = t.frames;
        frames.pop();
        proof {
            assert(frames@ =~= self.frames@.drop_last());
        }
        Ok(ContextToken { id: self.id, frames })
    }

    /// The top of the frame stack, if any.
    pub fn peek_frame(&self) -> (r: Option<MapFrame>)
        ensures
            match r {
                Some(f) => self.frames@.len() > 0 && f == self.frames@.last(),
                None => self.frames@.len() == 0,
            },
    {
        if self.frames.len() == 0 {
            None
        } else {
            Some(self.frames[self.frames.len() - 1])
        }
    }

    /// Whether two tokens carry the same canonical key, i.e. denote the same
    /// logical item observed on different branches.
    pub fn same_key(&self, other: &ContextToken) -> (r: bool)
        ensures
            r == (self.key() == other.key()),
    {
        if self.id != other.id {
            proof {
                assert(self.key() != other.key());
            }
            return false;
        }
        if self.frames.len() != other.frames.len() {
            proof {
                assert(self.frames@ != other.frames@);
            }
            return false;
        }
        let mut i: usize = 0;
        while i < self.frames.len()
            invariant
                i <= self.frames.len(),
                self.frames@.len() == other.frames@.len(),
                self.id == other.id,
                forall|j: int| 0 <= j < i ==> self.frames@[j] == other.frames@[j],
            decreases self.frames.len() - i,
        {
            let a = self.frames[i];
            let b = other.frames[i];
            if a.index != b.index || a.total != b.total {
                proof {
                    assert(self.frames@[i as int] != other.frames@[i as int]);
                }
                return false;
            }
            i = i + 1;
        }
        proof {
            assert(self.frames@ =~= other.frames@);
        }
        true
    }
}

/// Nested fan-outs push and their fan-ins pop in strict LIFO order: after two
/// nested pushes, the first pop returns to the outer push's key and the second
/// returns to the original key.
pub proof fn lemma_frames_lifo(k: CanonicalKey, i1: usize, n1: usize, i2: usize, n2: usize)
    ensures
        popped_key(pushed_key(pushed_key(k, i1, n1), i2, n2)) == pushed_key(k, i1, n1),
        popped_key(popped_key(pushed_key(pushed_key(k, i1, n1), i2, n2))) == k,
{
    assert(pushed_key(pushed_key(k, i1, n1), i2, n2).1.drop_last() =~= pushed_key(
        k,
        i1,
        n1,
    ).1);
    assert(pushed_key(k, i1, n1).1.drop_last() =~= k.1);
}

/// Sibling and interleaved fan-outs cannot corrupt one another's correlation
/// keys: two pushed keys coincide exactly when the base keys coincide and the
/// pushed frames are identical.
pub proof fn lemma_sibling_keys(
    k1: CanonicalKey,
    k2: CanonicalKey,
    i1: usize,
    n1: usize,
    i2: usize,
    n2: usize,
)
    ensures
        pushed_key(k1, i1, n1) == pushed_key(k2, i2, n2) <==> (k1 == k2 && i1 == i2 && n1 == n2),
{
    let p1 = pushed_key(k1, i1, n1);
    let p2 = pushed_key(k2, i2, n2);
    if p1 == p2 {
        assert(p1.1.last() == p2.1.last());
        assert(MapFrame { index: i1, total: n1 } == MapFrame { index: i2, total: n2 });
        assert(k1.1 =~= p1.1.drop_last());
        assert(k2.1 =~= p2.1.drop_last());
        assert(k1 == k2);
    }
    if k1 == k2 && i1 == i2 && n1 == n2 {
        assert(p1.1 =~= p2.1);
    }
}

} // verus!
