//! The library's cross-cutting guarantees, stated and proved once over the
//! spec-level views that every contract speaks of.

use vstd::prelude::*;
use crate::rope::{Rope, elem_bytes, elem_wf, lemma_elem_nonempty};
use crate::builder::RopeBuilder;
use crate::hashing::{rope_hash, hash_fold, le_bytes, HASH_SEED};

verus! {

/// A rope's reported length counts exactly the bytes a full reader drain
/// would yield: the cached length equals the length of the flat view, and
/// a fresh reader's remaining bytes are that view (`Rope::read`).
pub proof fn lemma_length_counts_all_bytes(r: Rope)
    requires
        r.wf(),
    ensures
        r.length == r@.len(),
{
}

/// Equal rope values are indistinguishable: a clone (`Clone` returns an
/// equal rope) is byte-equal to the original and hashes identically.
pub proof fn lemma_equal_ropes_indistinguishable(a: Rope, b: Rope)
    requires
        a == b,
    ensures
        a@ == b@,
        rope_hash(a@) == rope_hash(b@),
{
}

/// Hash follows content: ropes with equal flat bytes hash identically,
/// whatever the shape of their trees. Together with the contract of
/// `content_eq` — true exactly on equal flat bytes — hash and equality
/// agree with byte equality in both directions.
pub proof fn lemma_hash_follows_content(a: Rope, b: Rope)
    requires
        a.wf(),
        b.wf(),
        a@ == b@,
    ensures
        rope_hash(a@) == rope_hash(b@),
{
}

/// Concatenation of byte sequences is associative, so a builder fed the
/// same pieces under any grouping holds the same bytes.
pub proof fn lemma_concat_associative(a: Seq<u8>, b: Seq<u8>, c: Seq<u8>)
    ensures
        (a + b) + c == a + (b + c),
{
    assert((a + b) + c =~= a + (b + c));
}

/// Round trip: serializing emits a rope's flat bytes (`to_bytes`) and
/// deserializing wraps bytes unchanged (`from_vec`), so a rope rebuilt
/// from its own flat form is byte-equal to the original and shares its
/// hash.
pub proof fn lemma_round_trip(r: Rope, v: Seq<u8>, s: Rope)
    requires
        r.wf(),
        s.wf(),
        v == r@,
        s@ == v,
    ensures
        s@ == r@,
        rope_hash(s@) == rope_hash(r@),
{
}

/// Reads reassemble: a prefix of any size and the matching suffix
/// concatenate to the whole byte sequence, so draining through a buffer of
/// any positive size, through the non-blocking reader, or through the lazy
/// slices yields the same bytes.
pub proof fn lemma_reads_reassemble(s: Seq<u8>, k: int)
    requires
        0 <= k <= s.len(),
    ensures
        s.take(k) + s.skip(k) == s,
{
    assert(s.take(k) + s.skip(k) =~= s);
}

/// The concatenation of a sequence of chunks, in order.
pub open spec fn concat_all(chunks: Seq<Seq<u8>>) -> Seq<u8>
    decreases chunks.len(),
{
    if chunks.len() == 0 {
        Seq::empty()
    } else {
        chunks[0] + concat_all(chunks.drop_first())
    }
}

/// Every full drain reassembles the same bytes, whatever the call
/// sequence. Each reader operation's contract states that the call yields
/// a chunk and leaves exactly the matching remainder (`next` a whole leaf,
/// `read` a prefix of the chosen size, `fill_buf`/`consume` a consumed
/// prefix); a transcript of any such calls whose last remainder is empty
/// therefore concatenates to the bytes the reader started with. Two
/// readers over one rope start from the same bytes, so the lazy slices,
/// the blocking buffer of any positive sizes, and the non-blocking reader
/// all yield one and the same byte sequence.
pub proof fn lemma_drain_reassembles(rems: Seq<Seq<u8>>, chunks: Seq<Seq<u8>>)
    requires
        rems.len() == chunks.len() + 1,
        forall|i: int| 0 <= i < chunks.len() ==> rems[i] == (#[trigger] chunks[i]) + rems[i + 1],
        rems.last().len() == 0,
    ensures
        concat_all(chunks) == rems[0],
    decreases chunks.len(),
{
    if chunks.len() == 0 {
        assert(rems[0].len() == 0);
        assert(concat_all(chunks) =~= rems[0]);
    } else {
        assert forall|i: int| 0 <= i < chunks.drop_first().len() implies rems.drop_first()[i] == (
        #[trigger] chunks.drop_first()[i]) + rems.drop_first()[i + 1] by {
            assert(chunks.drop_first()[i] == chunks[i + 1]);
            assert(rems.drop_first()[i] == rems[i + 1]);
            assert(rems.drop_first()[i + 1] == rems[i + 2]);
            assert(rems[i + 1] == chunks[i + 1] + rems[i + 2]);
        }
        assert(rems.drop_first().last() == rems.last());
        lemma_drain_reassembles(rems.drop_first(), chunks.drop_first());
        assert(concat_all(chunks.drop_first()) == rems.drop_first()[0]);
        assert(rems.drop_first()[0] == rems[1]);
        assert(rems[0] == chunks[0] + rems[1]);
    }
}

/// Appending a chunk appends its bytes to the concatenation.
pub proof fn lemma_concat_all_push(chunks: Seq<Seq<u8>>, c: Seq<u8>)
    ensures
        concat_all(chunks.push(c)) == concat_all(chunks) + c,
    decreases chunks.len(),
{
    if chunks.len() == 0 {
        assert(chunks.push(c)[0] == c);
        assert(chunks.push(c).drop_first() =~= Seq::<Seq<u8>>::empty());
        assert(concat_all(Seq::<Seq<u8>>::empty()) == Seq::<u8>::empty());
        assert(c + Seq::<u8>::empty() =~= c);
        assert(concat_all(chunks) + c =~= c);
    } else {
        assert(chunks.push(c)[0] == chunks[0]);
        assert(chunks.push(c).drop_first() =~= chunks.drop_first().push(c));
        lemma_concat_all_push(chunks.drop_first(), c);
        assert(chunks[0] + (concat_all(chunks.drop_first()) + c) =~= (chunks[0] + concat_all(
            chunks.drop_first(),
        )) + c);
    }
}

/// Pushes that never commit coalesce, however many there are. An owned
/// push and a below-threshold static push each ensure that the committed
/// list is untouched and the pushed bytes land in the pending region; a
/// fresh builder fed any transcript of such pushes therefore still has an
/// empty committed list and holds exactly their concatenation as pending.
/// Sealing it then commits one owned leaf holding all of them — the
/// contract of `build` for a nonempty pending region.
pub proof fn lemma_uncommitted_pushes_coalesce(states: Seq<RopeBuilder>, pushes: Seq<Seq<u8>>)
    requires
        states.len() == pushes.len() + 1,
        states[0].committed@.len() == 0,
        states[0].bytes().len() == 0,
        forall|i: int|
            0 <= i < pushes.len() ==> {
                &&& (#[trigger] states[i + 1]).committed == states[i].committed
                &&& states[i + 1].bytes() == states[i].bytes() + pushes[i]
            },
    ensures
        states.last().committed@.len() == 0,
        states.last().bytes() == concat_all(pushes),
    decreases pushes.len(),
{
    if pushes.len() == 0 {
        assert(states.last() == states[0]);
        assert(states[0].bytes() =~= concat_all(pushes));
    } else {
        let n = pushes.len() as int;
        assert forall|i: int|
            0 <= i < pushes.drop_last().len() implies {
                &&& (#[trigger] states.drop_last()[i + 1]).committed == states.drop_last()[
                    i
                ].committed
                &&& states.drop_last()[i + 1].bytes() == states.drop_last()[i].bytes()
                    + pushes.drop_last()[i]
            } by {
            assert(states.drop_last()[i + 1] == states[i + 1]);
            assert(states.drop_last()[i] == states[i]);
            assert(pushes.drop_last()[i] == pushes[i]);
        }
        lemma_uncommitted_pushes_coalesce(states.drop_last(), pushes.drop_last());
        assert(states.drop_last().last() == states[n - 1]);
        assert(states[n].committed == states[n - 1].committed);
        assert(states[n].bytes() == states[n - 1].bytes() + pushes[n - 1]);
        assert(pushes.drop_last().push(pushes.last()) =~= pushes);
        lemma_concat_all_push(pushes.drop_last(), pushes.last());
        assert(states.last() == states[n]);
    }
}

/// The empty rope is canonical: its store has no segments, its hash mixes
/// only the zero length, and any two empty ropes are equal in bytes and
/// hash. A fresh reader over it has nothing to yield (`Rope::read`).
pub proof fn lemma_empty_rope(a: Rope, b: Rope)
    requires
        a.wf(),
        b.wf(),
        a@.len() == 0,
        b@.len() == 0,
    ensures
        a@ == b@,
        a.data.0@.len() == 0,
        rope_hash(a@) == hash_fold(hash_fold(HASH_SEED, le_bytes(0)), Seq::<u8>::empty()),
        rope_hash(a@) == rope_hash(b@),
{
    assert(a@ =~= b@);
    assert(a@ =~= Seq::<u8>::empty());
    assert(a@.len() as u64 == 0u64);
}

/// No committed segment store holds an empty leaf or a branch to an empty
/// store: every segment of a sound rope is sound and contributes at least
/// one byte.
pub proof fn lemma_no_empty_segments(r: Rope)
    requires
        r.wf(),
    ensures
        forall|i: int| 0 <= i < r.data.0@.len() ==> elem_wf(#[trigger] r.data.0@[i]),
        forall|i: int| 0 <= i < r.data.0@.len() ==> elem_bytes(#[trigger] r.data.0@[i]).len() > 0,
{
    assert forall|i: int| 0 <= i < r.data.0@.len() implies elem_bytes(
        #[trigger] r.data.0@[i],
    ).len() > 0 by {
        lemma_elem_nonempty(r.data.0@[i]);
    }
}

} // verus!
