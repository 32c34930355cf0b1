//! The rope value and its shared segment store.
//!
//! A rope is a lightweight handle: a cached total length plus a reference to
//! a segment store. A segment store is an immutable, reference-counted
//! sequence of segments; a segment is either a leaf (a shared byte buffer)
//! or a branch (a reference to another rope's store). Cloning a rope or
//! concatenating one into a builder shares the store instead of copying.

use vstd::prelude::*;
use bytes::Bytes;
use std::sync::Arc;
use crate::support::bytes_view;
use crate::support::{bytes_len, bytes_as_slice, string_from_utf8};
use crate::reader::RopeReader;
use crate::hashing::{hash_fold, rope_hash, lemma_hash_fold_concat, hash_fold_slice, hash_fold_len,
    HASH_SEED};
use vstd::string::{StrSliceExecFns, StringSliceAdditionalSpecFns};

verus! {

/// One segment of a segment store.
pub enum RopeElem {
    /// Bytes owned directly by this store, as a shared immutable buffer.
    Local(Bytes),
    /// The whole segment store of another rope, shared by reference.
    Shared(InnerRope),
}

/// An immutable, reference-counted segment store. Multiple ropes, builders
/// and readers may share one store; it is never mutated once built.
pub struct InnerRope(pub Arc<Vec<RopeElem>>);

/// An immutable logical byte sequence: a total length and a shared segment
/// store whose leaves concatenate, in order, to that sequence.
pub struct Rope {
    /// Total number of bytes reachable through `data`.
    pub length: usize,
    /// The root segment store.
    pub data: InnerRope,
}

/// The flat bytes of one segment, in traversal order.
pub open spec fn elem_bytes(e: RopeElem) -> Seq<u8>
    decreases e,
{
    match e {
        RopeElem::Local(b) => bytes_view(b),
        RopeElem::Shared(r) => inner_bytes(r),
    }
}

/// The flat bytes of a whole segment store.
pub open spec fn inner_bytes(r: InnerRope) -> Seq<u8>
    decreases r,
{
    elems_bytes(r.0@)
}

/// The flat bytes of a sequence of segments, concatenated in order.
pub open spec fn elems_bytes(s: Seq<RopeElem>) -> Seq<u8>
    decreases s,
{
    if s.len() == 0 {
        Seq::empty()
    } else {
        elem_bytes(s[0]) + elems_bytes(s.drop_first())
    }
}

/// Structural soundness of one segment: a leaf is never empty, and a branch
/// never references an empty store.
pub open spec fn elem_wf(e: RopeElem) -> bool
    decreases e,
{
    match e {
        RopeElem::Local(b) => bytes_view(b).len() > 0,
        RopeElem::Shared(r) => r.0@.len() > 0 && inner_wf(r),
    }
}

/// Structural soundness of a segment store: every segment is sound.
pub open spec fn inner_wf(r: InnerRope) -> bool
    decreases r,
{
    forall|i: int| 0 <= i < r.0@.len() ==> elem_wf(#[trigger] r.0@[i])
}

/// The number of tree nodes under one segment, counting the segment
/// itself. Readers use it as a termination measure for traversal.
pub open spec fn elem_weight(e: RopeElem) -> nat
    decreases e,
{
    match e {
        RopeElem::Local(_) => 1,
        RopeElem::Shared(r) => 1 + elems_weight(r.0@),
    }
}

/// The number of tree nodes under a sequence of segments.
pub open spec fn elems_weight(s: Seq<RopeElem>) -> nat
    decreases s,
{
    if s.len() == 0 {
        0
    } else {
        elem_weight(s[0]) + elems_weight(s.drop_first())
    }
}

/// The bytes of the first leaf reached from one segment by in-order
/// traversal: the leaf itself, or the first leaf of the referenced store.
pub open spec fn elem_first_leaf(e: RopeElem) -> Seq<u8>
    decreases e,
{
    match e {
        RopeElem::Local(b) => bytes_view(b),
        RopeElem::Shared(r) => elems_first_leaf(r.0@),
    }
}

/// The bytes of the first leaf reached from a sequence of segments. Under
/// the structural invariant no segment is empty, so the first segment
/// always holds it.
pub open spec fn elems_first_leaf(s: Seq<RopeElem>) -> Seq<u8>
    decreases s,
{
    if s.len() == 0 {
        Seq::empty()
    } else {
        elem_first_leaf(s[0])
    }
}

/// The weight of a suffix split off at its first segment.
pub proof fn lemma_elems_weight_skip(s: Seq<RopeElem>, i: int)
    requires
        0 <= i < s.len(),
    ensures
        elems_weight(s.skip(i)) == elem_weight(s[i]) + elems_weight(s.skip(i + 1)),
{
    assert(s.skip(i)[0] == s[i]);
    assert(s.skip(i).drop_first() =~= s.skip(i + 1));
}

/// Appending a segment appends its bytes.
pub proof fn lemma_elems_bytes_push(s: Seq<RopeElem>, e: RopeElem)
    ensures
        elems_bytes(s.push(e)) == elems_bytes(s) + elem_bytes(e),
    decreases s.len(),
{
    if s.len() == 0 {
        assert(s.push(e)[0] == e);
        assert(s.push(e).drop_first() =~= Seq::<RopeElem>::empty());
        assert(elems_bytes(Seq::<RopeElem>::empty()) == Seq::<u8>::empty());
        assert(elem_bytes(e) + Seq::<u8>::empty() =~= elem_bytes(e));
        assert(elems_bytes(s) + elem_bytes(e) =~= elem_bytes(e));
    } else {
        assert(s.push(e)[0] == s[0]);
        assert(s.push(e).drop_first() =~= s.drop_first().push(e));
        lemma_elems_bytes_push(s.drop_first(), e);
        assert(elem_bytes(s[0]) + (elems_bytes(s.drop_first()) + elem_bytes(e)) =~= (elem_bytes(
            s[0],
        ) + elems_bytes(s.drop_first())) + elem_bytes(e));
    }
}

/// The bytes of a suffix split off at its first segment.
pub proof fn lemma_elems_bytes_skip(s: Seq<RopeElem>, i: int)
    requires
        0 <= i < s.len(),
    ensures
        elems_bytes(s.skip(i)) == elem_bytes(s[i]) + elems_bytes(s.skip(i + 1)),
{
    assert(s.skip(i)[0] == s[i]);
    assert(s.skip(i).drop_first() =~= s.skip(i + 1));
}

/// A sound segment holds at least one byte.
pub proof fn lemma_elem_nonempty(e: RopeElem)
    requires
        elem_wf(e),
    ensures
        elem_bytes(e).len() > 0,
    decreases e,
{
    match e {
        RopeElem::Local(_) => {},
        RopeElem::Shared(r) => {
            lemma_elem_nonempty(r.0@[0]);
        },
    }
}

/// The error cases of rope consumption.
#[derive(Debug, PartialEq, Eq, Structural)]
pub enum RopeError {
    /// The flat byte sequence is not valid UTF-8.
    Encoding,
}

impl Clone for InnerRope {
    /// Cheap duplication: only a reference count changes.
    fn clone(&self) -> (r: Self)
        ensures
            r == *self,
    {
        InnerRope(crate::support::arc_clone(&self.0))
    }
}

impl InnerRope {
    /// The number of segments in the store (not a byte count).
    pub fn len(&self) -> (r: usize)
        ensures
            r == self.0@.len(),
    {
        self.0.len()
    }

    /// Whether the store holds no segments.
    pub fn is_empty(&self) -> (r: bool)
        ensures
            r == (self.0@.len() == 0),
    {
        self.0.len() == 0
    }
}

impl View for Rope {
    type V = Seq<u8>;

    /// A rope is judged by its flat bytes.
    open spec fn view(&self) -> Seq<u8> {
        inner_bytes(self.data)
    }
}

impl Rope {
    /// The structural invariant every rope built through this crate holds:
    /// the store is sound, the cached length counts exactly the reachable
    /// bytes, and the empty rope is canonical (an empty store).
    pub open spec fn wf(self) -> bool {
        &&& inner_wf(self.data)
        &&& self.length == inner_bytes(self.data).len()
        &&& (self.length == 0 ==> self.data.0@.len() == 0)
    }

    /// Total number of bytes, read from the cached length.
    pub fn len(&self) -> (r: usize)
        requires
            self.wf(),
        ensures
            r == self@.len(),
    {
        self.length
    }

    /// Whether the rope holds no bytes.
    pub fn is_empty(&self) -> (r: bool)
        requires
            self.wf(),
        ensures
            r == (self@.len() == 0),
    {
        self.length == 0
    }

    /// A rope over an owned byte buffer: empty input gives the canonical
    /// empty rope, anything else a single-leaf store.
    pub fn from_vec(bytes: Vec<u8>) -> (r: Rope)
        ensures
            r.wf(),
            r@ == bytes@,
            bytes@.len() == 0 ==> r.data.0@.len() == 0,
            bytes@.len() > 0 ==> {
                &&& r.data.0@.len() == 1
                &&& (r.data.0@[0] matches RopeElem::Local(b) && bytes_view(b) == bytes@)
            },
    {
        let n = bytes.len();
        if n == 0 {
            Rope::default()
        } else {
            let leaf = crate::support::bytes_from_vec(bytes);
            let mut v: Vec<RopeElem> = Vec::new();
            v.push(RopeElem::Local(leaf));
            proof {
                assert(v@.drop_first() =~= Seq::<RopeElem>::empty());
                assert(bytes_view(leaf) + Seq::<u8>::empty() =~= bytes_view(leaf));
            }
            Rope { length: n, data: InnerRope(Arc::new(v)) }
        }
    }

    /// A rope over a static string: its UTF-8 bytes, shared without a copy
    /// unless the string is empty.
    pub fn from_static_str(s: &'static str) -> (r: Rope)
        ensures
            r.wf(),
            r@ == s.spec_bytes(),
            s.spec_bytes().len() == 0 ==> r.data.0@.len() == 0,
            s.spec_bytes().len() > 0 ==> {
                &&& r.data.0@.len() == 1
                &&& (r.data.0@[0] matches RopeElem::Local(b) && bytes_view(b) == s.spec_bytes())
            },
    {
        Rope::from_static(s.as_bytes())
    }

    /// A rope over an owned string: its UTF-8 bytes.
    pub fn from_string(s: String) -> (r: Rope)
        ensures
            r.wf(),
            r@ == vstd::utf8::encode_utf8(s@),
            vstd::utf8::encode_utf8(s@).len() == 0 ==> r.data.0@.len() == 0,
            vstd::utf8::encode_utf8(s@).len() > 0 ==> {
                &&& r.data.0@.len() == 1
                &&& (r.data.0@[0] matches RopeElem::Local(b) && bytes_view(b)
                    == vstd::utf8::encode_utf8(s@))
            },
    {
        let v = s.as_str().as_bytes_vec();
        Rope::from_vec(v)
    }

    /// A rope over a static byte slice: empty input gives the canonical
    /// empty rope, anything else a single leaf aliasing the static memory.
    pub fn from_static(bytes: &'static [u8]) -> (r: Rope)
        ensures
            r.wf(),
            r@ == bytes@,
            bytes@.len() == 0 ==> r.data.0@.len() == 0,
            bytes@.len() > 0 ==> {
                &&& r.data.0@.len() == 1
                &&& (r.data.0@[0] matches RopeElem::Local(b) && bytes_view(b) == bytes@)
            },
    {
        let n = bytes.len();
        if n == 0 {
            Rope::default()
        } else {
            let leaf = crate::support::bytes_from_static(bytes);
            let mut v: Vec<RopeElem> = Vec::new();
            v.push(RopeElem::Local(leaf));
            proof {
                assert(v@.drop_first() =~= Seq::<RopeElem>::empty());
                assert(bytes_view(leaf) + Seq::<u8>::empty() =~= bytes_view(leaf));
            }
            Rope { length: n, data: InnerRope(Arc::new(v)) }
        }
    }
}

impl Default for Rope {
    /// The canonical empty rope: length zero over an empty store.
    fn default() -> (r: Self)
        ensures
            r.wf(),
            r@ == Seq::<u8>::empty(),
    {
        let v: Vec<RopeElem> = Vec::new();
        proof {
            assert(inner_bytes(InnerRope(Arc::new(v))) =~= Seq::<u8>::empty());
        }
        Rope { length: 0, data: InnerRope(Arc::new(v)) }
    }
}

impl Clone for Rope {
    /// Cheap duplication: the clone shares the segment store.
    fn clone(&self) -> (r: Self)
        ensures
            r == *self,
    {
        Rope { length: self.length, data: self.data.clone() }
    }
}

/// Append every byte of a slice to a vector.
pub(crate) fn push_all(out: &mut Vec<u8>, s: &[u8])
    ensures
        final(out)@ == old(out)@ + s@,
{
    let ghost base: Seq<u8> = out@;
    let n = s.len();
    let mut i: usize = 0;
    while i < n
        invariant
            i <= n,
            n == s@.len(),
            out@ == base + s@.take(i as int),
        decreases n - i,
    {
        let byte = *vstd::slice::slice_index_get(s, i);
        proof {
            assert(base + s@.take(i + 1) =~= (base + s@.take(i as int)).push(s@[i as int]));
        }
        out.push(byte);
        i = i + 1;
    }
    proof {
        assert(base + s@.take(n as int) =~= base + s@);
    }
}

/// Compare the first `n` bytes of two slices.
fn slice_prefix_eq(a: &[u8], b: &[u8], n: usize) -> (r: bool)
    requires
        n <= a@.len(),
        n <= b@.len(),
    ensures
        r == (a@.take(n as int) == b@.take(n as int)),
{
    let mut i: usize = 0;
    while i < n
        invariant
            i <= n,
            n <= a@.len(),
            n <= b@.len(),
            forall|j: int| 0 <= j < i ==> a@[j] == b@[j],
        decreases n - i,
    {
        let x = *vstd::slice::slice_index_get(a, i);
        let y = *vstd::slice::slice_index_get(b, i);
        if x != y {
            proof {
                assert(a@.take(n as int)[i as int] != b@.take(n as int)[i as int]);
            }
            return false;
        }
        i = i + 1;
    }
    proof {
        assert(a@.take(n as int) =~= b@.take(n as int));
    }
    true
}

/// A common prefix cancels on both sides of a sequence equality.
proof fn lemma_prepend_cancel(p: Seq<u8>, s: Seq<u8>, t: Seq<u8>)
    requires
        p + s == p + t,
    ensures
        s == t,
{
    broadcast use vstd::seq::group_seq_axioms;

    assert((p + s).len() == p.len() + s.len());
    assert((p + t).len() == p.len() + t.len());
    assert(s.len() == t.len());
    assert forall|j: int| 0 <= j < s.len() implies s[j] == t[j] by {
        assert((p + s)[p.len() + j] == s[j]);
        assert((p + t)[p.len() + j] == t[j]);
    }
    assert(s =~= t);
}

impl InnerRope {
    /// Equality by content: true exactly when the flat bytes reachable
    /// through the two stores are equal, whatever shape the trees have.
    /// Two readers walk in lockstep, comparing aligned prefixes without
    /// copying.
    pub fn content_eq(&self, other: &InnerRope) -> (r: bool)
        requires
            inner_wf(*self),
            inner_wf(*other),
        ensures
            r == (inner_bytes(*self) == inner_bytes(*other)),
    {
        let ghost a: Seq<u8> = inner_bytes(*self);
        let ghost b: Seq<u8> = inner_bytes(*other);
        let mut left = RopeReader::new(self);
        let mut right = RopeReader::new(other);
        let ghost mut p: Seq<u8> = Seq::empty();
        loop
            invariant
                left.wf(),
                right.wf(),
                a == p + left.rem(),
                b == p + right.rem(),
                a == inner_bytes(*self),
                b == inner_bytes(*other),
            decreases left.rem().len(),
        {
            let ghost lrem: Seq<u8> = left.rem();
            let ghost rrem: Seq<u8> = right.rem();
            let x = left.fill_buf();
            let y = right.fill_buf();
            let xl = bytes_len(&x);
            let yl = bytes_len(&y);
            let len = if xl < yl {
                xl
            } else {
                yl
            };
            if len == 0 {
                proof {
                    if xl == 0 && yl == 0 {
                        assert(a =~= p);
                        assert(b =~= p);
                    } else if xl == 0 {
                        assert(a =~= p);
                        assert(b.len() > a.len());
                    } else {
                        assert(b =~= p);
                        assert(a.len() > b.len());
                    }
                }
                return xl == yl;
            }
            let xs = bytes_as_slice(&x);
            let ys = bytes_as_slice(&y);
            let same = slice_prefix_eq(xs, ys, len);
            proof {
                assert(bytes_view(x) == lrem.take(xl as int));
                assert(bytes_view(y) == rrem.take(yl as int));
                assert(lrem.take(len as int) =~= bytes_view(x).take(len as int));
                assert(rrem.take(len as int) =~= bytes_view(y).take(len as int));
            }
            if !same {
                proof {
                    if a == b {
                        lemma_prepend_cancel(p, lrem, rrem);
                        assert(lrem.take(len as int) == rrem.take(len as int));
                    }
                }
                return false;
            }
            left.consume(len);
            right.consume(len);
            proof {
                assert(lrem.take(len as int) + lrem.skip(len as int) =~= lrem);
                assert(rrem.take(len as int) + rrem.skip(len as int) =~= rrem);
                assert((p + lrem.take(len as int)) + lrem.skip(len as int) =~= p + lrem);
                assert((p + rrem.take(len as int)) + rrem.skip(len as int) =~= p + rrem);
                p = p + lrem.take(len as int);
                assert(p + right.rem() =~= b);
            }
        }
    }

    /// Drain the whole store into one flat byte vector.
    pub fn to_bytes(&self) -> (r: Vec<u8>)
        requires
            inner_wf(*self),
        ensures
            r@ == inner_bytes(*self),
    {
        let mut rd = RopeReader::new(self);
        let mut out: Vec<u8> = Vec::new();
        loop
            invariant
                rd.wf(),
                out@ + rd.rem() == inner_bytes(*self),
            ensures
                out@ == inner_bytes(*self),
            decreases rd.rem().len(),
        {
            let chunk = rd.next();
            match chunk {
                None => {
                    proof {
                        assert(out@ + rd.rem() =~= out@);
                    }
                    break;
                },
                Some(bytes) => {
                    let s = bytes_as_slice(&bytes);
                    proof {
                        assert((out@ + bytes_view(bytes)) + rd.rem() =~= out@ + (bytes_view(bytes)
                            + rd.rem()));
                    }
                    push_all(&mut out, s);
                },
            }
        }
        out
    }

    /// The flat contents as a string. Fast or slow, the answer is the same:
    /// the UTF-8 decoding of the flat bytes, or an encoding error when they
    /// are not valid UTF-8.
    pub fn to_str(&self) -> (r: Result<String, RopeError>)
        requires
            inner_wf(*self),
        ensures
            r is Ok <==> vstd::utf8::valid_utf8(inner_bytes(*self)),
            r matches Ok(s) ==> s@ == vstd::utf8::decode_utf8(inner_bytes(*self)),
    {
        let bytes = self.to_bytes();
        match string_from_utf8(bytes) {
            Some(s) => Ok(s),
            None => Err(RopeError::Encoding),
        }
    }

    /// Fold the store's flat bytes into a running hash state. Leaves
    /// contribute their raw bytes in order; branches contribute their
    /// referenced store recursively; no lengths are mixed at this level.
    pub fn deterministic_hash(&self, state: u64) -> (r: u64)
        requires
            inner_wf(*self),
        ensures
            r == hash_fold(state, inner_bytes(*self)),
    {
        let mut rd = RopeReader::new(self);
        let mut acc = state;
        let ghost mut done: Seq<u8> = Seq::empty();
        proof {
            assert(done + rd.rem() =~= rd.rem());
        }
        loop
            invariant
                rd.wf(),
                done + rd.rem() == inner_bytes(*self),
                acc == hash_fold(state, done),
            ensures
                acc == hash_fold(state, inner_bytes(*self)),
            decreases rd.rem().len(),
        {
            let chunk = rd.next();
            match chunk {
                None => {
                    proof {
                        assert(done + rd.rem() =~= done);
                    }
                    break;
                },
                Some(bytes) => {
                    let s = bytes_as_slice(&bytes);
                    proof {
                        lemma_hash_fold_concat(state, done, bytes_view(bytes));
                        assert((done + bytes_view(bytes)) + rd.rem() =~= done + (bytes_view(bytes)
                            + rd.rem()));
                        done = done + bytes_view(bytes);
                    }
                    acc = hash_fold_slice(acc, s);
                },
            }
        }
        acc
    }
}

impl Rope {
    /// A fresh reader over this rope's bytes, positioned at the store's
    /// first segment. Distinct readers are independent; each observes the
    /// same bytes in the same order.
    pub fn read(&self) -> (r: RopeReader)
        requires
            self.wf(),
        ensures
            r.wf(),
            r.rem() == self@,
            self.data.0@.len() == 0 ==> r.stack@.len() == 0,
            self.data.0@.len() > 0 ==> r.stack@ == seq![
                crate::reader::StackElem::Shared(self.data, 0usize),
            ],
    {
        RopeReader::new(&self.data)
    }

    /// Equality by content, independent of tree shape.
    pub fn content_eq(&self, other: &Rope) -> (r: bool)
        requires
            self.wf(),
            other.wf(),
        ensures
            r == (self@ == other@),
    {
        self.data.content_eq(&other.data)
    }

    /// Drain the whole rope into one flat byte vector.
    pub fn to_bytes(&self) -> (r: Vec<u8>)
        requires
            self.wf(),
        ensures
            r@ == self@,
    {
        self.data.to_bytes()
    }

    /// The flat contents as a string, or an encoding error when the bytes
    /// are not valid UTF-8.
    pub fn to_str(&self) -> (r: Result<String, RopeError>)
        requires
            self.wf(),
        ensures
            r is Ok <==> vstd::utf8::valid_utf8(self@),
            r matches Ok(s) ==> s@ == vstd::utf8::decode_utf8(self@),
    {
        self.data.to_str()
    }

    /// Deterministic content hash: the total length is mixed first — the
    /// only place any length enters — then the flat bytes. Ropes with equal
    /// bytes hash identically regardless of structure.
    pub fn deterministic_hash(&self) -> (r: u64)
        requires
            self.wf(),
        ensures
            r == rope_hash(self@),
    {
        proof {
            assert(self.length as u64 == self@.len() as u64);
        }
        let h = hash_fold_len(HASH_SEED, self.length as u64);
        self.data.deterministic_hash(h)
    }
}

} // verus!
