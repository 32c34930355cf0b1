//! The reader: a stateful cursor over a rope's shared tree.
//!
//! A reader owns a stack of frames. A frame is either a leaf buffer being
//! consumed from the front, or a segment store together with the index of
//! the next segment to visit. Yielding the next leaf pops frames and pushes
//! sub-frames; no bytes are copied until a caller asks for them.

use vstd::prelude::*;
use bytes::Bytes;
use crate::rope::{
    RopeElem, InnerRope, elem_bytes, elems_bytes, inner_bytes, elem_wf, inner_wf,
    lemma_elems_bytes_skip, elem_weight, elems_weight, lemma_elems_weight_skip, elem_first_leaf,
    elems_first_leaf,
};
use crate::support::{bytes_view, bytes_clone, bytes_len, bytes_as_slice, bytes_advance, bytes_new};

verus! {

/// One frame of a reader's traversal stack.
pub enum StackElem {
    /// A leaf buffer, not yet fully consumed.
    Local(Bytes),
    /// A store under traversal and the index of the next segment to visit.
    Shared(InnerRope, usize),
}

/// The bytes a frame still has to yield.
pub open spec fn frame_bytes(f: StackElem) -> Seq<u8> {
    match f {
        StackElem::Local(b) => bytes_view(b),
        StackElem::Shared(r, i) => elems_bytes(r.0@.skip(i as int)),
    }
}

/// Soundness of a frame: a leaf frame is never empty, and a store frame's
/// index is in range of a sound store.
pub open spec fn frame_wf(f: StackElem) -> bool {
    match f {
        StackElem::Local(b) => bytes_view(b).len() > 0,
        StackElem::Shared(r, i) => inner_wf(r) && i < r.0@.len(),
    }
}

/// The bytes a whole stack still has to yield, top frame first.
pub open spec fn stack_bytes(s: Seq<StackElem>) -> Seq<u8>
    decreases s.len(),
{
    if s.len() == 0 {
        Seq::empty()
    } else {
        frame_bytes(s.last()) + stack_bytes(s.drop_last())
    }
}

/// Pushing a frame prepends its bytes to what the stack yields.
pub proof fn lemma_stack_bytes_push(s: Seq<StackElem>, f: StackElem)
    ensures
        stack_bytes(s.push(f)) == frame_bytes(f) + stack_bytes(s),
{
    assert(s.push(f).last() == f);
    assert(s.push(f).drop_last() =~= s);
}

/// The bytes of the next leaf the traversal will reach: the top leaf
/// frame itself, or the first leaf under the top store frame. Under the
/// soundness invariant the top frame always holds one, so lower frames
/// never decide it.
pub open spec fn stack_first_leaf(s: Seq<StackElem>) -> Seq<u8> {
    if s.len() == 0 {
        Seq::empty()
    } else {
        match s.last() {
            StackElem::Local(b) => bytes_view(b),
            StackElem::Shared(r, i) => elems_first_leaf(r.0@.skip(i as int)),
        }
    }
}

/// The traversal work a frame still represents: zero for a leaf (one pop
/// yields it), the node count of the remaining segments for a store frame.
pub open spec fn frame_weight(f: StackElem) -> nat {
    match f {
        StackElem::Local(_) => 0,
        StackElem::Shared(r, i) => elems_weight(r.0@.skip(i as int)),
    }
}

/// The traversal work a whole stack still represents.
pub open spec fn stack_weight(s: Seq<StackElem>) -> nat
    decreases s.len(),
{
    if s.len() == 0 {
        0
    } else {
        frame_weight(s.last()) + stack_weight(s.drop_last())
    }
}

/// Pushing a frame adds its weight.
pub proof fn lemma_stack_weight_push(s: Seq<StackElem>, f: StackElem)
    ensures
        stack_weight(s.push(f)) == frame_weight(f) + stack_weight(s),
{
    assert(s.push(f).last() == f);
    assert(s.push(f).drop_last() =~= s);
}

/// A cursor that yields a rope's bytes in order without copying. Each
/// reader holds its own references to every store it traverses, so the
/// tree outlives the reader however the rope itself is dropped.
pub struct RopeReader {
    /// The traversal stack; the top is the next thing to yield.
    pub stack: Vec<StackElem>,
}

impl RopeReader {
    /// The bytes this reader has not yet yielded.
    pub open spec fn rem(self) -> Seq<u8> {
        stack_bytes(self.stack@)
    }

    /// Every frame on the stack is sound.
    pub open spec fn wf(self) -> bool {
        forall|i: int| 0 <= i < self.stack@.len() ==> frame_wf(#[trigger] self.stack@[i])
    }

    /// Whether the top of the stack is a leaf frame (established by a
    /// successful peek).
    pub open spec fn top_is_leaf(self) -> bool {
        self.stack@.len() > 0 && (self.stack@.last() matches StackElem::Local(_))
    }

    /// The bytes of the top leaf frame.
    pub open spec fn top_leaf_bytes(self) -> Seq<u8> {
        match self.stack@.last() {
            StackElem::Local(b) => bytes_view(b),
            _ => Seq::empty(),
        }
    }

    /// The length of the top leaf frame, if the top of the stack is one:
    /// what a caller may pass to [`RopeReader::consume`].
    pub fn top_leaf_len(&self) -> (r: Option<usize>)
        ensures
            r matches Some(n) ==> self.top_is_leaf() && n == self.top_leaf_bytes().len(),
            r is None ==> !self.top_is_leaf(),
    {
        let n = self.stack.len();
        if n == 0 {
            return None;
        }
        match &self.stack[n - 1] {
            StackElem::Local(b) => Some(bytes_len(b)),
            StackElem::Shared(_, _) => None,
        }
    }

    /// A reader over a segment store: an empty store starts with an empty
    /// stack, anything else with one frame at the store's first segment.
    pub fn new(rope: &InnerRope) -> (r: RopeReader)
        requires
            inner_wf(*rope),
        ensures
            r.wf(),
            r.rem() == inner_bytes(*rope),
            rope.0@.len() == 0 ==> r.stack@.len() == 0,
            rope.0@.len() > 0 ==> r.stack@ == seq![StackElem::Shared(*rope, 0usize)],
    {
        if rope.is_empty() {
            let r = RopeReader { stack: Vec::new() };
            proof {
                assert(r.stack@.len() == 0);
                assert(stack_bytes(r.stack@) == Seq::<u8>::empty());
                assert(rope.0@ =~= Seq::<RopeElem>::empty());
                assert(elems_bytes(Seq::<RopeElem>::empty()) == Seq::<u8>::empty());
            }
            r
        } else {
            let mut stack: Vec<StackElem> = Vec::new();
            stack.push(StackElem::Shared(rope.clone(), 0));
            let r = RopeReader { stack };
            proof {
                assert(r.stack@.last() == StackElem::Shared(*rope, 0usize));
                assert(r.stack@.drop_last() =~= Seq::<StackElem>::empty());
                assert(stack_bytes(Seq::<StackElem>::empty()) == Seq::<u8>::empty());
                assert(rope.0@.skip(0) =~= rope.0@);
                assert(stack_bytes(r.stack@) == frame_bytes(r.stack@.last()) + stack_bytes(
                    r.stack@.drop_last(),
                ));
                assert(frame_bytes(r.stack@.last()) + Seq::<u8>::empty() =~= inner_bytes(*rope));
            }
            r
        }
    }

    /// Yield the next leaf's bytes without copying, or report end of
    /// stream. A yielded buffer is never empty.
    pub fn next(&mut self) -> (r: Option<Bytes>)
        requires
            old(self).wf(),
        ensures
            final(self).wf(),
            match r {
                None => old(self).rem().len() == 0 && final(self).rem().len() == 0,
                Some(b) => bytes_view(b).len() > 0 && old(self).rem() == bytes_view(b)
                    + final(self).rem(),
            },
            old(self).top_is_leaf() ==> (r matches Some(b) && bytes_view(b) == old(
                self,
            ).top_leaf_bytes()),
            r matches Some(b) ==> bytes_view(b) == stack_first_leaf(old(self).stack@),
    {
        let ghost orig: Seq<u8> = self.rem();
        loop
            invariant
                self.wf(),
                self.rem() == orig,
                orig == old(self).rem(),
                old(self).top_is_leaf() ==> self.stack@ == old(self).stack@,
                stack_first_leaf(self.stack@) == stack_first_leaf(old(self).stack@),
            decreases stack_weight(self.stack@),
        {
            let ghost pre_stack: Seq<StackElem> = self.stack@;
            let popped = self.stack.pop();
            match popped {
                None => {
                    return None;
                },
                Some(StackElem::Local(b)) => {
                    proof {
                        assert(pre_stack =~= self.stack@.push(StackElem::Local(b)));
                        lemma_stack_bytes_push(self.stack@, StackElem::Local(b));
                        assert(frame_wf(pre_stack.last()));
                    }
                    return Some(b);
                },
                Some(StackElem::Shared(r, i)) => {
                    proof {
                        assert(pre_stack =~= self.stack@.push(StackElem::Shared(r, i)));
                        lemma_stack_bytes_push(self.stack@, StackElem::Shared(r, i));
                        lemma_stack_weight_push(self.stack@, StackElem::Shared(r, i));
                        assert(frame_wf(pre_stack.last()));
                        lemma_elems_bytes_skip(r.0@, i as int);
                        lemma_elems_weight_skip(r.0@, i as int);
                        assert(elem_wf(r.0@[i as int]));
                        assert forall|ii: int| 0 <= ii < self.stack@.len() implies frame_wf(
                            #[trigger] self.stack@[ii],
                        ) by {
                            assert(self.stack@[ii] == pre_stack[ii]);
                        }
                    }
                    let n = r.len();
                    let frame = match &r.0[i] {
                        RopeElem::Local(b) => StackElem::Local(bytes_clone(b)),
                        RopeElem::Shared(inner) => StackElem::Shared(inner.clone(), 0),
                    };
                    proof {
                        match r.0@[i as int] {
                            RopeElem::Local(_) => {},
                            RopeElem::Shared(inner) => {
                                assert(inner.0@.skip(0) =~= inner.0@);
                            },
                        }
                        assert(frame_bytes(frame) == elem_bytes(r.0@[i as int]));
                        assert(frame_weight(frame) < elem_weight(r.0@[i as int]));
                        assert(frame_wf(frame));
                        assert(r.0@.skip(i as int)[0] == r.0@[i as int]);
                        assert(elems_first_leaf(r.0@.skip(i as int)) == elem_first_leaf(
                            r.0@[i as int],
                        ));
                    }
                    let next_i = i + 1;
                    if next_i < n {
                        proof {
                            lemma_stack_bytes_push(self.stack@, StackElem::Shared(r, next_i));
                            lemma_stack_weight_push(self.stack@, StackElem::Shared(r, next_i));
                        }
                        self.stack.push(StackElem::Shared(r, next_i));
                    } else {
                        proof {
                            assert(r.0@.skip(next_i as int) =~= Seq::<RopeElem>::empty());
                            assert(elems_bytes(Seq::<RopeElem>::empty()) == Seq::<u8>::empty());
                            assert(elems_weight(Seq::<RopeElem>::empty()) == 0);
                        }
                    }
                    proof {
                        lemma_stack_bytes_push(self.stack@, frame);
                        lemma_stack_weight_push(self.stack@, frame);
                    }
                    self.stack.push(frame);
                    proof {
                        assert(stack_weight(self.stack@) < stack_weight(pre_stack));
                        assert(self.stack@.last() == frame);
                        assert(stack_first_leaf(self.stack@) == elem_first_leaf(r.0@[i as int]));
                    }
                },
            }
        }
    }

    /// Copy up to `want` bytes into `buf`, appending them in order. The
    /// return count is short only at end of stream, never spuriously.
    pub fn read(&mut self, want: usize, buf: &mut Vec<u8>) -> (r: usize)
        requires
            old(self).wf(),
        ensures
            final(self).wf(),
            r == if want <= old(self).rem().len() {
                want as int
            } else {
                old(self).rem().len() as int
            },
            final(buf)@ == old(buf)@ + old(self).rem().take(r as int),
            final(self).rem() == old(self).rem().skip(r as int),
    {
        let ghost orig: Seq<u8> = self.rem();
        let ghost buf0: Seq<u8> = buf@;
        let mut remaining: usize = want;
        loop
            invariant
                self.wf(),
                remaining <= want,
                want - remaining <= orig.len(),
                buf@ == buf0 + orig.take(want - remaining),
                self.rem() == orig.skip(want - remaining),
                orig == old(self).rem(),
                buf0 == old(buf)@,
            ensures
                self.wf(),
                buf@ == buf0 + orig.take(want - remaining),
                self.rem() == orig.skip(want - remaining),
                want - remaining == if want <= orig.len() {
                    want as int
                } else {
                    orig.len() as int
                },
            decreases remaining,
        {
            if remaining == 0 {
                break;
            }
            let ghost k: int = want - remaining;
            let chunk = self.next();
            match chunk {
                None => {
                    proof {
                        assert(orig.skip(k).len() == 0);
                        assert(orig.len() <= k);
                    }
                    break;
                },
                Some(mut bytes) => {
                    let blen = bytes_len(&bytes);
                    let amount = if blen < remaining {
                        blen
                    } else {
                        remaining
                    };
                    let ghost rest: Seq<u8> = self.rem();
                    let ghost chunk_view: Seq<u8> = bytes_view(bytes);
                    let s = bytes_as_slice(&bytes);
                    let ghost bmid: Seq<u8> = buf@;
                    let mut j: usize = 0;
                    while j < amount
                        invariant
                            j <= amount,
                            amount <= s@.len(),
                            s@ == chunk_view,
                            buf@ == bmid + s@.take(j as int),
                        decreases amount - j,
                    {
                        let byte = *vstd::slice::slice_index_get(s, j);
                        proof {
                            assert(s@.take(j + 1) =~= s@.take(j as int).push(s@[j as int]));
                            assert(bmid + s@.take(j + 1) =~= (bmid + s@.take(j as int)).push(
                                s@[j as int],
                            ));
                        }
                        buf.push(byte);
                        j = j + 1;
                    }
                    proof {
                        assert(orig.skip(k) == chunk_view + rest);
                        assert(orig.skip(k).len() == orig.len() - k);
                        assert(chunk_view.len() + rest.len() == orig.len() - k);
                        assert(k + amount <= orig.len());
                        assert forall|m: int| 0 <= m < k + amount implies #[trigger] orig.take(
                            k + amount,
                        )[m] == (orig.take(k) + chunk_view.take(amount as int))[m] by {
                            if m >= k {
                                assert(orig.skip(k)[m - k] == orig[m]);
                                assert((chunk_view + rest)[m - k] == chunk_view[m - k]);
                            }
                        }
                        assert(orig.take(k + amount) =~= orig.take(k) + chunk_view.take(
                            amount as int,
                        ));
                        assert(s@.take(amount as int) == chunk_view.take(amount as int));
                        assert(buf@ == buf0 + orig.take(k + amount));
                        assert forall|m: int| 0 <= m < rest.len() + (chunk_view.len()
                            - amount) implies #[trigger] orig.skip(k + amount)[m] == (
                        chunk_view.skip(amount as int) + rest)[m] by {
                            assert(orig.skip(k + amount)[m] == orig[k + amount + m]);
                            assert(orig.skip(k)[amount + m] == orig[k + amount + m]);
                            assert((chunk_view + rest)[amount + m] == (chunk_view.skip(
                                amount as int,
                            ) + rest)[m]);
                        }
                        assert(orig.skip(k + amount) =~= chunk_view.skip(amount as int) + rest);
                    }
                    if amount < blen {
                        bytes_advance(&mut bytes, amount);
                        proof {
                            lemma_stack_bytes_push(self.stack@, StackElem::Local(bytes));
                            assert(bytes_view(bytes) + rest =~= orig.skip(k + amount));
                        }
                        self.stack.push(StackElem::Local(bytes));
                    } else {
                        proof {
                            assert(chunk_view.skip(amount as int) =~= Seq::<u8>::empty());
                            assert(rest =~= orig.skip(k + amount));
                        }
                    }
                    remaining = remaining - amount;
                },
            }
        }
        want - remaining
    }

    /// Peek at the next bytes without consuming them: the returned buffer
    /// is the stream's next chunk, left on top of the stack so that
    /// repeated peeks return the same bytes. An empty result means end of
    /// stream.
    pub fn fill_buf(&mut self) -> (r: Bytes)
        requires
            old(self).wf(),
        ensures
            final(self).wf(),
            final(self).rem() == old(self).rem(),
            (bytes_view(r).len() == 0) <==> (old(self).rem().len() == 0),
            bytes_view(r).len() <= old(self).rem().len(),
            bytes_view(r).len() > 0 ==> {
                &&& final(self).top_is_leaf()
                &&& final(self).top_leaf_bytes() == bytes_view(r)
                &&& bytes_view(r) == old(self).rem().take(bytes_view(r).len() as int)
                &&& bytes_view(r) == stack_first_leaf(old(self).stack@)
            },
            old(self).top_is_leaf() ==> bytes_view(r) == old(self).top_leaf_bytes(),
    {
        let chunk = self.next();
        match chunk {
            None => {
                let r = bytes_new();
                proof {
                    assert(final(self).rem() =~= old(self).rem());
                }
                r
            },
            Some(b) => {
                let r = bytes_clone(&b);
                let ghost rest: Seq<u8> = self.rem();
                proof {
                    lemma_stack_bytes_push(self.stack@, StackElem::Local(b));
                }
                self.stack.push(StackElem::Local(b));
                proof {
                    assert(bytes_view(r) =~= (bytes_view(r) + rest).take(
                        bytes_view(r).len() as int,
                    ));
                }
                r
            },
        }
    }

    /// Consume `amt` bytes from the top leaf frame, which the most recent
    /// successful peek established. Consuming part of the leaf leaves the
    /// rest on top, so the next peek returns it; consuming all of it pops
    /// the frame.
    pub fn consume(&mut self, amt: usize)
        requires
            old(self).wf(),
            old(self).top_is_leaf(),
            amt <= old(self).top_leaf_bytes().len(),
        ensures
            final(self).wf(),
            final(self).rem() == old(self).rem().skip(amt as int),
            amt < old(self).top_leaf_bytes().len() ==> {
                &&& final(self).top_is_leaf()
                &&& final(self).top_leaf_bytes() == old(self).top_leaf_bytes().skip(amt as int)
                &&& final(self).stack@.len() == old(self).stack@.len()
            },
            amt == old(self).top_leaf_bytes().len() ==> final(self).stack@ == old(
                self,
            ).stack@.drop_last(),
    {
        let popped = self.stack.pop();
        match popped {
            Some(StackElem::Local(mut b)) => {
                proof {
                    lemma_stack_bytes_push(self.stack@, StackElem::Local(b));
                }
                let ghost rest: Seq<u8> = self.rem();
                let ghost bview: Seq<u8> = bytes_view(b);
                let blen = bytes_len(&b);
                if amt == blen {
                    proof {
                        assert(rest =~= (bview + rest).skip(amt as int));
                    }
                } else {
                    bytes_advance(&mut b, amt);
                    proof {
                        lemma_stack_bytes_push(self.stack@, StackElem::Local(b));
                        assert(bytes_view(b) + rest =~= (bview + rest).skip(amt as int));
                    }
                    self.stack.push(StackElem::Local(b));
                }
            },
            Some(other) => {
                self.stack.push(other);
            },
            None => {},
        }
    }
}

} // verus!
