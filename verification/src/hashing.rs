//! The deterministic content hash of a rope.
//!
//! The hash is a pure function of the rope's total length and its flat byte
//! sequence: the total length is mixed first, then every byte in order. Tree
//! structure never enters the hash, so two ropes with the same bytes hash the
//! same however their segment trees are shaped.

use vstd::prelude::*;

verus! {

/// Seed of the byte-at-a-time mixing function (the FNV-1a offset basis).
pub const HASH_SEED: u64 = 0xcbf2_9ce4_8422_2325;

/// Multiplier of the mixing function (the FNV-1a prime).
pub const HASH_PRIME: u64 = 0x0000_0100_0000_01b3;

/// One mixing step: fold a single byte into the running state.
pub open spec fn hash_step(h: u64, b: u8) -> u64 {
    vstd::wrapping::u64_specs::wrapping_mul(h ^ (b as u64), HASH_PRIME)
}

/// Fold a whole byte sequence into the running state, left to right.
pub open spec fn hash_fold(h: u64, s: Seq<u8>) -> u64
    decreases s.len(),
{
    if s.len() == 0 {
        h
    } else {
        hash_fold(hash_step(h, s[0]), s.drop_first())
    }
}

/// The eight little-endian bytes of a 64-bit value, as mixed for a length.
pub open spec fn le_bytes(n: u64) -> Seq<u8> {
    seq![
        (n & 0xff) as u8,
        ((n >> 8) & 0xff) as u8,
        ((n >> 16) & 0xff) as u8,
        ((n >> 24) & 0xff) as u8,
        ((n >> 32) & 0xff) as u8,
        ((n >> 40) & 0xff) as u8,
        ((n >> 48) & 0xff) as u8,
        ((n >> 56) & 0xff) as u8,
    ]
}

/// Deterministic content hash of a rope with flat bytes `s`: the total
/// length enters once, at the top level, followed by the bytes themselves.
pub open spec fn rope_hash(s: Seq<u8>) -> u64 {
    hash_fold(hash_fold(HASH_SEED, le_bytes(s.len() as u64)), s)
}

/// Folding a concatenation folds the two parts in order.
pub proof fn lemma_hash_fold_concat(h: u64, a: Seq<u8>, b: Seq<u8>)
    ensures
        hash_fold(h, a + b) == hash_fold(hash_fold(h, a), b),
    decreases a.len(),
{
    if a.len() == 0 {
        assert(a + b =~= b);
    } else {
        assert((a + b).drop_first() =~= a.drop_first() + b);
        lemma_hash_fold_concat(hash_step(h, a[0]), a.drop_first(), b);
    }
}

/// Folding a single byte is one mixing step.
pub proof fn lemma_hash_fold_one(h: u64, b: u8)
    ensures
        hash_fold(h, seq![b]) == hash_step(h, b),
{
    assert(seq![b].drop_first() =~= Seq::<u8>::empty());
    assert(hash_fold(hash_step(h, b), Seq::<u8>::empty()) == hash_step(h, b));
}

/// A value masked to its low eight bits fits in a byte.
proof fn lemma_byte_mask(n: u64)
    ensures
        n & 0xff <= 0xff,
{
    assert(n & 0xff <= 0xff) by (bit_vector);
}

/// Exec mixing step, equal to the spec step.
pub fn hash_step_exec(h: u64, b: u8) -> (r: u64)
    ensures
        r == hash_step(h, b),
{
    (h ^ (b as u64)).wrapping_mul(HASH_PRIME)
}

/// Fold every byte of a slice into the running state, left to right.
pub fn hash_fold_slice(h: u64, s: &[u8]) -> (r: u64)
    ensures
        r == hash_fold(h, s@),
{
    let n = s.len();
    let mut acc = h;
    let mut i: usize = 0;
    while i < n
        invariant
            i <= n,
            n == s@.len(),
            acc == hash_fold(h, s@.take(i as int)),
        decreases n - i,
    {
        let b = *vstd::slice::slice_index_get(s, i);
        proof {
            assert(s@.take(i + 1) =~= s@.take(i as int) + seq![s@[i as int]]);
            lemma_hash_fold_concat(h, s@.take(i as int), seq![s@[i as int]]);
            lemma_hash_fold_one(acc, s@[i as int]);
        }
        acc = hash_step_exec(acc, b);
        i = i + 1;
    }
    proof {
        assert(s@.take(n as int) =~= s@);
    }
    acc
}

/// Fold the eight little-endian bytes of `n` into the running state.
pub fn hash_fold_len(h: u64, n: u64) -> (r: u64)
    ensures
        r == hash_fold(h, le_bytes(n)),
{
    proof {
        lemma_byte_mask(n);
        lemma_byte_mask(n >> 8);
        lemma_byte_mask(n >> 16);
        lemma_byte_mask(n >> 24);
        lemma_byte_mask(n >> 32);
        lemma_byte_mask(n >> 40);
        lemma_byte_mask(n >> 48);
        lemma_byte_mask(n >> 56);
    }
    let mut acc = h;
    acc = hash_step_exec(acc, (n & 0xff) as u8);
    acc = hash_step_exec(acc, ((n >> 8) & 0xff) as u8);
    acc = hash_step_exec(acc, ((n >> 16) & 0xff) as u8);
    acc = hash_step_exec(acc, ((n >> 24) & 0xff) as u8);
    acc = hash_step_exec(acc, ((n >> 32) & 0xff) as u8);
    acc = hash_step_exec(acc, ((n >> 40) & 0xff) as u8);
    acc = hash_step_exec(acc, ((n >> 48) & 0xff) as u8);
    acc = hash_step_exec(acc, ((n >> 56) & 0xff) as u8);
    proof {
        reveal_with_fuel(hash_fold, 10);
        let s = le_bytes(n);
        assert(s.drop_first() =~= s.subrange(1, 8));
        assert(s.subrange(1, 8).drop_first() =~= s.subrange(2, 8));
        assert(s.subrange(2, 8).drop_first() =~= s.subrange(3, 8));
        assert(s.subrange(3, 8).drop_first() =~= s.subrange(4, 8));
        assert(s.subrange(4, 8).drop_first() =~= s.subrange(5, 8));
        assert(s.subrange(5, 8).drop_first() =~= s.subrange(6, 8));
        assert(s.subrange(6, 8).drop_first() =~= s.subrange(7, 8));
        assert(s.subrange(7, 8).drop_first() =~= Seq::<u8>::empty());
    }
    acc
}

} // verus!
