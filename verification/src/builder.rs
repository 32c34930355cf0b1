//! The builder: the policy engine that decides, write by write, whether to
//! copy, borrow, or share.
//!
//! Small writes accumulate in a pending scratch region and are promoted to
//! one committed leaf at well-defined commit points; a long static push
//! becomes a leaf aliasing the static memory; concatenating a whole rope
//! installs its store as a single shared branch in constant time.

use vstd::prelude::*;
use bytes::Bytes;
use std::sync::Arc;
use crate::rope::{
    RopeElem, InnerRope, Rope, elems_bytes, inner_bytes, elem_wf, lemma_elems_bytes_push,
    lemma_elem_nonempty, push_all,
};
use crate::support::{bytes_view, bytes_from_static, bytes_from_vec, bytes_len};
use vstd::string::StringSliceAdditionalSpecFns;

verus! {

/// The in-memory cost of a reference-counted slice header: four machine
/// words on a 64-bit host. A static push smaller than this is cheaper to
/// own inline than to keep as a separate heap-allocated slice descriptor.
pub const STATIC_INLINE_THRESHOLD: usize = 32;

/// The pending region of a builder: bytes pushed but not yet committed.
pub enum Uncommitted {
    /// Nothing pending.
    Empty,
    /// A borrow of externally owned immutable bytes with indefinite
    /// lifetime, held back in the hope of committing it without a copy.
    Static(&'static [u8]),
    /// A growable scratch buffer coalescing small writes.
    Owned(Vec<u8>),
}

impl Uncommitted {
    /// The pending bytes.
    pub open spec fn bytes(self) -> Seq<u8> {
        match self {
            Uncommitted::Empty => Seq::empty(),
            Uncommitted::Static(s) => s@,
            Uncommitted::Owned(v) => v@,
        }
    }

    /// The pending region is never empty in a held state.
    pub open spec fn wf(self) -> bool {
        match self {
            Uncommitted::Empty => true,
            Uncommitted::Static(s) => s@.len() > 0,
            Uncommitted::Owned(v) => v@.len() > 0,
        }
    }

    /// The byte length of the pending region.
    pub fn len(&self) -> (r: usize)
        ensures
            r == self.bytes().len(),
    {
        match self {
            Uncommitted::Empty => 0,
            Uncommitted::Static(s) => s.len(),
            Uncommitted::Owned(v) => v.len(),
        }
    }

    /// Whether nothing is pending.
    pub fn is_clear(&self) -> (r: bool)
        ensures
            r == (*self matches Uncommitted::Empty),
    {
        match self {
            Uncommitted::Empty => true,
            _ => false,
        }
    }

    /// Route owned bytes into the scratch buffer, converting the current
    /// representation to an owned one if it is not already: a held static
    /// borrow is coalesced with the new bytes into one allocation rather
    /// than costing two slice headers.
    pub fn push_bytes(&mut self, bytes: &[u8])
        requires
            bytes@.len() > 0,
            old(self).wf(),
        ensures
            final(self).wf(),
            final(self).bytes() == old(self).bytes() + bytes@,
            *final(self) matches Uncommitted::Owned(_),
    {
        let mut cur = Uncommitted::Empty;
        core::mem::swap(self, &mut cur);
        match cur {
            Uncommitted::Empty => {
                let mut v: Vec<u8> = Vec::new();
                push_all(&mut v, bytes);
                proof {
                    assert(Seq::<u8>::empty() + bytes@ =~= bytes@);
                    assert(v@ =~= bytes@);
                }
                *self = Uncommitted::Owned(v);
            },
            Uncommitted::Static(s) => {
                let mut v: Vec<u8> = Vec::new();
                push_all(&mut v, s);
                push_all(&mut v, bytes);
                proof {
                    assert(v@ =~= s@ + bytes@);
                }
                *self = Uncommitted::Owned(v);
            },
            Uncommitted::Owned(mut v) => {
                push_all(&mut v, bytes);
                *self = Uncommitted::Owned(v);
            },
        }
    }

    /// Route static bytes into the pending region: an empty region records
    /// the borrow for later, anything else coalesces into owned scratch.
    pub fn push_static_bytes(&mut self, bytes: &'static [u8])
        requires
            bytes@.len() > 0,
            old(self).wf(),
        ensures
            final(self).wf(),
            final(self).bytes() == old(self).bytes() + bytes@,
            (old(self) matches Uncommitted::Empty) ==> *final(self) == Uncommitted::Static(bytes),
            !(old(self) matches Uncommitted::Empty) ==> *final(self) matches Uncommitted::Owned(_),
    {
        if self.is_clear() {
            proof {
                assert(Seq::<u8>::empty() + bytes@ =~= bytes@);
            }
            *self = Uncommitted::Static(bytes);
        } else {
            self.push_bytes(bytes);
        }
    }

    /// Promote the pending bytes to one immutable buffer, resetting the
    /// region to empty. A held static borrow becomes a buffer aliasing the
    /// static memory; owned scratch becomes an owned buffer; nothing
    /// pending yields nothing.
    pub fn finish(&mut self) -> (r: Option<Bytes>)
        requires
            old(self).wf(),
        ensures
            *final(self) == Uncommitted::Empty,
            match r {
                None => old(self).bytes().len() == 0,
                Some(b) => bytes_view(b) == old(self).bytes() && bytes_view(b).len() > 0,
            },
    {
        let mut cur = Uncommitted::Empty;
        core::mem::swap(self, &mut cur);
        match cur {
            Uncommitted::Empty => None,
            Uncommitted::Static(s) => Some(bytes_from_static(s)),
            Uncommitted::Owned(v) => Some(bytes_from_vec(v)),
        }
    }
}

/// A mutable assembly area for building a rope: a committed segment list
/// plus a pending region of not-yet-committed bytes.
pub struct RopeBuilder {
    /// Total length of all previously committed bytes.
    pub length: usize,
    /// The committed segments, in order; `build` seals them into a store.
    pub committed: Vec<RopeElem>,
    /// Bytes pushed but not yet committed.
    pub uncommited: Uncommitted,
}

impl RopeBuilder {
    /// The bytes committed so far.
    pub open spec fn committed_bytes(self) -> Seq<u8> {
        elems_bytes(self.committed@)
    }

    /// All bytes the builder holds: committed, then pending.
    pub open spec fn bytes(self) -> Seq<u8> {
        self.committed_bytes() + self.uncommited.bytes()
    }

    /// The builder's invariant: every committed segment is sound, the
    /// running length counts exactly the committed bytes, the pending
    /// region is sound, and the total fits the machine word.
    pub open spec fn wf(self) -> bool {
        &&& forall|i: int|
            0 <= i < self.committed@.len() ==> elem_wf(#[trigger] self.committed@[i])
        &&& self.length == self.committed_bytes().len()
        &&& self.uncommited.wf()
        &&& self.committed_bytes().len() + self.uncommited.bytes().len() <= usize::MAX
    }

    /// Push owned bytes. They are copied into the pending scratch region;
    /// nothing is committed by this call, and an empty push is a no-op.
    pub fn push_bytes(&mut self, bytes: &[u8])
        requires
            old(self).wf(),
            old(self).bytes().len() + bytes@.len() <= usize::MAX,
        ensures
            final(self).wf(),
            final(self).bytes() == old(self).bytes() + bytes@,
            final(self).committed == old(self).committed,
            final(self).length == old(self).length,
            bytes@.len() == 0 ==> *final(self) == *old(self),
            bytes@.len() > 0 ==> final(self).uncommited matches Uncommitted::Owned(_),
    {
        if bytes.is_empty() {
            proof {
                assert(old(self).bytes() + bytes@ =~= old(self).bytes());
            }
            return ;
        }
        self.uncommited.push_bytes(bytes);
        proof {
            assert((self.committed_bytes() + old(self).uncommited.bytes()) + bytes@ =~= self
                .committed_bytes() + (old(self).uncommited.bytes() + bytes@));
        }
    }

    /// Push static bytes. A push shorter than [`STATIC_INLINE_THRESHOLD`]
    /// degrades to an owned copy in the pending region; anything longer
    /// flushes the pending region and commits a leaf that aliases the
    /// static memory. An empty push is a no-op.
    pub fn push_static_bytes(&mut self, bytes: &'static [u8])
        requires
            old(self).wf(),
            old(self).bytes().len() + bytes@.len() <= usize::MAX,
        ensures
            final(self).wf(),
            final(self).bytes() == old(self).bytes() + bytes@,
            bytes@.len() == 0 ==> *final(self) == *old(self),
            0 < bytes@.len() < STATIC_INLINE_THRESHOLD ==> {
                &&& final(self).committed == old(self).committed
                &&& final(self).length == old(self).length
                &&& ((old(self).uncommited matches Uncommitted::Empty) ==> final(self).uncommited
                    == Uncommitted::Static(bytes))
                &&& (!(old(self).uncommited matches Uncommitted::Empty)
                    ==> final(self).uncommited matches Uncommitted::Owned(_))
            },
            bytes@.len() >= STATIC_INLINE_THRESHOLD ==> {
                &&& final(self).uncommited matches Uncommitted::Empty
                &&& (final(self).committed@.last() matches RopeElem::Local(l) && bytes_view(l)
                    == bytes@)
                &&& final(self).committed@.len() == old(self).committed@.len() + (
                if (old(self).uncommited matches Uncommitted::Empty) {
                    1nat
                } else {
                    2nat
                })
                &&& final(self).committed@.take(old(self).committed@.len() as int)
                    == old(self).committed@
                &&& (!(old(self).uncommited matches Uncommitted::Empty)
                    ==> (final(self).committed@[old(self).committed@.len() as int]
                        matches RopeElem::Local(p)
                    && bytes_view(p) == old(self).uncommited.bytes()))
            },
    {
        if bytes.is_empty() {
            proof {
                assert(old(self).bytes() + bytes@ =~= old(self).bytes());
            }
            return ;
        }
        if bytes.len() < STATIC_INLINE_THRESHOLD {
            self.uncommited.push_static_bytes(bytes);
            proof {
                assert((self.committed_bytes() + old(self).uncommited.bytes()) + bytes@ =~= self
                    .committed_bytes() + (old(self).uncommited.bytes() + bytes@));
            }
            return ;
        }
        self.finish();
        let leaf = crate::support::bytes_from_static(bytes);
        self.length = self.length + bytes.len();
        proof {
            lemma_elems_bytes_push(self.committed@, RopeElem::Local(leaf));
        }
        self.committed.push(RopeElem::Local(leaf));
        proof {
            assert(self.bytes() =~= self.committed_bytes());
            assert(old(self).bytes() + bytes@ =~= (old(self).committed_bytes() + old(
                self,
            ).uncommited.bytes()) + bytes@);
        }
    }

    /// Concatenate a whole rope in constant time: flush the pending region
    /// and install the other rope's store as one shared branch, copying no
    /// bytes. Concatenating an empty rope is a no-op.
    pub fn concat(&mut self, other: &Rope)
        requires
            old(self).wf(),
            other.wf(),
            old(self).bytes().len() + other@.len() <= usize::MAX,
        ensures
            final(self).wf(),
            final(self).bytes() == old(self).bytes() + other@,
            other@.len() == 0 ==> *final(self) == *old(self),
            other@.len() > 0 ==> {
                &&& final(self).uncommited matches Uncommitted::Empty
                &&& (final(self).committed@.last() matches RopeElem::Shared(inner) && inner
                    == other.data)
                &&& final(self).committed@.len() == old(self).committed@.len() + (
                if (old(self).uncommited matches Uncommitted::Empty) {
                    1nat
                } else {
                    2nat
                })
                &&& final(self).committed@.take(old(self).committed@.len() as int)
                    == old(self).committed@
                &&& (!(old(self).uncommited matches Uncommitted::Empty)
                    ==> (final(self).committed@[old(self).committed@.len() as int]
                        matches RopeElem::Local(p)
                    && bytes_view(p) == old(self).uncommited.bytes()))
            },
    {
        if other.is_empty() {
            proof {
                assert(old(self).bytes() + other@ =~= old(self).bytes());
            }
            return ;
        }
        self.finish();
        self.length = self.length + other.len();
        let branch = RopeElem::Shared(other.data.clone());
        proof {
            if other.data.0@.len() == 0 {
                assert(inner_bytes(other.data) == Seq::<u8>::empty());
            }
            assert(elem_wf(branch));
            lemma_elems_bytes_push(self.committed@, branch);
        }
        self.committed.push(branch);
        proof {
            assert(self.bytes() =~= self.committed_bytes());
            assert(old(self).bytes() + other@ =~= (old(self).committed_bytes() + old(
                self,
            ).uncommited.bytes()) + other@);
        }
    }

    /// Commit any pending bytes as one leaf. Idempotent: with nothing
    /// pending the builder is untouched.
    pub fn finish(&mut self)
        requires
            old(self).wf(),
        ensures
            final(self).wf(),
            final(self).bytes() == old(self).bytes(),
            final(self).uncommited matches Uncommitted::Empty,
            final(self).length == old(self).bytes().len(),
            (old(self).uncommited matches Uncommitted::Empty) ==> *final(self) == *old(self),
            !(old(self).uncommited matches Uncommitted::Empty) ==> {
                &&& final(self).committed@.len() == old(self).committed@.len() + 1
                &&& final(self).committed@ == old(self).committed@.push(
                    final(self).committed@.last(),
                )
                &&& (final(self).committed@.last() matches RopeElem::Local(b) && bytes_view(b)
                    == old(self).uncommited.bytes())
            },
    {
        let ghost pre = *self;
        let pending = self.uncommited.finish();
        match pending {
            None => {
                proof {
                    assert(pre.uncommited.bytes().len() == 0);
                    assert(self.bytes() =~= old(self).bytes());
                }
            },
            Some(b) => {
                let blen = bytes_len(&b);
                self.length = self.length + blen;
                proof {
                    lemma_elems_bytes_push(self.committed@, RopeElem::Local(b));
                }
                self.committed.push(RopeElem::Local(b));
                proof {
                    assert(self.bytes() =~= self.committed_bytes());
                    assert(self.committed_bytes() =~= old(self).bytes());
                }
            },
        }
    }

    /// The builder's total byte length: committed plus pending.
    pub fn len(&self) -> (r: usize)
        requires
            self.wf(),
        ensures
            r == self.bytes().len(),
    {
        self.length + self.uncommited.len()
    }

    /// Whether the builder holds no bytes at all.
    pub fn is_empty(&self) -> (r: bool)
        requires
            self.wf(),
        ensures
            r == (self.bytes().len() == 0),
    {
        self.len() == 0
    }

    /// Seal the builder into an immutable rope: flush the pending region
    /// and wrap the committed segments as the rope's store.
    pub fn build(self) -> (r: Rope)
        requires
            self.wf(),
        ensures
            r.wf(),
            r@ == self.bytes(),
            (self.uncommited matches Uncommitted::Empty) ==> r.data.0@ == self.committed@,
            !(self.uncommited matches Uncommitted::Empty) ==> {
                &&& r.data.0@.len() == self.committed@.len() + 1
                &&& r.data.0@ == self.committed@.push(r.data.0@.last())
                &&& (r.data.0@.last() matches RopeElem::Local(b) && bytes_view(b)
                    == self.uncommited.bytes())
            },
    {
        let mut b = self;
        b.finish();
        let r = Rope { length: b.length, data: InnerRope(Arc::new(b.committed)) };
        proof {
            assert(inner_bytes(r.data) == elems_bytes(self.committed@.push(
                r.data.0@.last(),
            )) || inner_bytes(r.data) == elems_bytes(self.committed@));
            assert(r@ =~= self.bytes());
            if r.length == 0 {
                lemma_committed_empty(r.data.0@);
            }
        }
        r
    }
}

/// A list of sound segments with no bytes has no segments at all.
proof fn lemma_committed_empty(s: Seq<RopeElem>)
    requires
        forall|i: int| 0 <= i < s.len() ==> elem_wf(#[trigger] s[i]),
        elems_bytes(s).len() == 0,
    ensures
        s.len() == 0,
{
    if s.len() > 0 {
        lemma_elem_nonempty(s[0]);
    }
}

impl Default for RopeBuilder {
    /// A fresh builder holding nothing.
    fn default() -> (r: Self)
        ensures
            r.wf(),
            r.bytes() == Seq::<u8>::empty(),
            r.committed@.len() == 0,
            r.uncommited matches Uncommitted::Empty,
    {
        let r = RopeBuilder { length: 0, committed: Vec::new(), uncommited: Uncommitted::Empty };
        proof {
            assert(r.bytes() =~= Seq::<u8>::empty());
        }
        r
    }
}

impl RopeBuilder {
    /// A builder primed with an owned byte buffer, placed directly into the
    /// pending region so no copy is made.
    pub fn from_vec(bytes: Vec<u8>) -> (r: RopeBuilder)
        ensures
            r.wf(),
            r.bytes() == bytes@,
            r.committed@.len() == 0,
    {
        if bytes.len() == 0 {
            let r = RopeBuilder::default();
            proof {
                assert(bytes@ =~= Seq::<u8>::empty());
            }
            r
        } else {
            let r = RopeBuilder {
                length: 0,
                committed: Vec::new(),
                uncommited: Uncommitted::Owned(bytes),
            };
            proof {
                assert(r.bytes() =~= bytes@);
            }
            r
        }
    }

    /// A builder primed with a static string: a fresh builder, then one
    /// static push of the string's bytes.
    pub fn from_static_str(s: &'static str) -> (r: RopeBuilder)
        ensures
            r.wf(),
            r.bytes() == s.spec_bytes(),
    {
        let mut b = RopeBuilder::default();
        let bs = s.as_bytes();
        let n = bs.len();
        proof {
            assert(n == s.spec_bytes().len());
        }
        b.push_static_bytes(bs);
        proof {
            assert(Seq::<u8>::empty() + s.spec_bytes() =~= s.spec_bytes());
        }
        b
    }
}

} // verus!
