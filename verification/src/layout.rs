//! The revision-1 binary layout of an identifier.
//!
//! A structurally well-formed encoding is: one revision byte (`1`), one
//! sub-authority count byte (at most 15), a 48-bit big-endian identifier
//! authority, and the counted number of 32-bit little-endian
//! sub-authorities.

use vstd::prelude::*;

use crate::radix::{
    be_bytes, be_value, le_bytes, le_value, lemma_be_bytes_len, lemma_be_bytes_of_value,
    lemma_be_value_bound, lemma_be_value_of_bytes, lemma_le_bytes_len, lemma_le_bytes_of_value,
    lemma_le_value_bound, lemma_le_value_of_bytes, lemma_pow256_4, lemma_pow256_6, pow256,
};

verus! {

/// The number of sub-authorities the count byte announces.
pub open spec fn sub_count(b: Seq<u8>) -> int {
    b[1] as int
}

/// A byte sequence laid out exactly as a revision-1 identifier.
pub open spec fn structurally_valid(b: Seq<u8>) -> bool {
    &&& b.len() >= 8
    &&& b[0] == 1
    &&& b[1] <= 15
    &&& b.len() == 8 + 4 * sub_count(b)
}

/// The 48-bit identifier authority, big endian in bytes 2 to 7.
pub open spec fn authority(b: Seq<u8>) -> nat {
    be_value(b.subrange(2, 8))
}

/// The `i`-th 32-bit sub-authority, little endian.
pub open spec fn sub_authority(b: Seq<u8>, i: int) -> nat {
    le_value(b.subrange(8 + 4 * i, 12 + 4 * i))
}

/// All sub-authorities of `b`, in order.
pub open spec fn subs_of(b: Seq<u8>) -> Seq<nat> {
    Seq::new(sub_count(b) as nat, |i: int| sub_authority(b, i))
}

/// The concatenation of 4-byte little-endian encodings of the given values.
pub open spec fn le_chunks(subs: Seq<nat>) -> Seq<u8>
    decreases subs.len(),
{
    if subs.len() == 0 {
        Seq::empty()
    } else {
        le_chunks(subs.drop_last()) + le_bytes(subs.last(), 4)
    }
}

/// The encoding assembled from an authority and sub-authority values.
pub open spec fn sid_bytes_of(a: nat, subs: Seq<nat>) -> Seq<u8> {
    seq![1u8, subs.len() as u8] + be_bytes(a, 6) + le_chunks(subs)
}

pub proof fn lemma_le_chunks_len(subs: Seq<nat>)
    ensures
        le_chunks(subs).len() == 4 * subs.len(),
    decreases subs.len(),
{
    if subs.len() > 0 {
        lemma_le_chunks_len(subs.drop_last());
        lemma_le_bytes_len(subs.last(), 4);
    }
}

/// Each value occupies its own aligned 4-byte chunk of the concatenation.
pub proof fn lemma_le_chunks_chunk(subs: Seq<nat>, i: int)
    requires
        0 <= i < subs.len(),
    ensures
        le_chunks(subs).subrange(4 * i, 4 * i + 4) == le_bytes(subs[i], 4),
    decreases subs.len(),
{
    lemma_le_chunks_len(subs.drop_last());
    lemma_le_bytes_len(subs.last(), 4);
    if i == subs.len() - 1 {
        assert(le_chunks(subs).subrange(4 * i, 4 * i + 4) =~= le_bytes(subs.last(), 4));
    } else {
        lemma_le_chunks_chunk(subs.drop_last(), i);
        assert(le_chunks(subs).subrange(4 * i, 4 * i + 4) =~= le_chunks(subs.drop_last()).subrange(
            4 * i,
            4 * i + 4,
        ));
    }
}

/// The authority of a well-formed encoding fits in 48 bits.
pub proof fn lemma_authority_bound(b: Seq<u8>)
    requires
        b.len() >= 8,
    ensures
        authority(b) < 0x1000000000000,
{
    lemma_be_value_bound(b.subrange(2, 8));
    lemma_pow256_6();
}

/// Every sub-authority fits in 32 bits.
pub proof fn lemma_sub_authority_bound(b: Seq<u8>, i: int)
    requires
        0 <= i,
        b.len() >= 12 + 4 * i,
    ensures
        sub_authority(b, i) < 0x100000000,
{
    lemma_le_value_bound(b.subrange(8 + 4 * i, 12 + 4 * i));
    lemma_pow256_4();
}

/// Assembling an encoding from in-range values yields a well-formed
/// encoding that reads back to exactly those values.
pub proof fn lemma_sid_bytes_of_reads_back(a: nat, subs: Seq<nat>)
    requires
        a < 0x1000000000000,
        subs.len() <= 15,
        forall|i: int| 0 <= i < subs.len() ==> subs[i] < 0x100000000,
    ensures
        structurally_valid(sid_bytes_of(a, subs)),
        sub_count(sid_bytes_of(a, subs)) == subs.len(),
        authority(sid_bytes_of(a, subs)) == a,
        subs_of(sid_bytes_of(a, subs)) == subs,
{
    let b = sid_bytes_of(a, subs);
    lemma_be_bytes_len(a, 6);
    lemma_le_chunks_len(subs);
    lemma_pow256_6();
    lemma_pow256_4();
    assert(b.len() == 8 + 4 * subs.len());
    assert(b[0] == 1 && b[1] == subs.len());
    assert(b.subrange(2, 8) =~= be_bytes(a, 6));
    lemma_be_value_of_bytes(a, 6);
    assert forall|i: int| 0 <= i < subs.len() implies sub_authority(b, i) == subs[i] by {
        lemma_le_chunks_chunk(subs, i);
        assert(b.subrange(8 + 4 * i, 12 + 4 * i) =~= le_chunks(subs).subrange(4 * i, 4 * i + 4));
        lemma_le_value_of_bytes(subs[i], 4);
    }
    assert(subs_of(b) =~= subs);
}

/// A well-formed encoding is exactly the assembly of the values it reads
/// to: the layout carries no information beyond authority, sub-authorities
/// and their count.
pub proof fn lemma_sid_bytes_of_roundtrip(b: Seq<u8>)
    requires
        structurally_valid(b),
    ensures
        sid_bytes_of(authority(b), subs_of(b)) == b,
{
    let a = authority(b);
    let subs = subs_of(b);
    let c = sid_bytes_of(a, subs);
    lemma_be_bytes_len(a, 6);
    lemma_le_chunks_len(subs);
    lemma_be_bytes_of_value(b.subrange(2, 8));
    assert(be_bytes(a, 6) == b.subrange(2, 8));
    assert forall|j: int| 0 <= j < c.len() implies c[j] == b[j] by {
        if j >= 8 {
            let q = (j - 8) / 4;
            let r = (j - 8) % 4;
            assert(j == 8 + 4 * q + r && 0 <= r < 4 && 0 <= q < subs.len());
            lemma_le_chunks_chunk(subs, q);
            lemma_le_bytes_of_value(b.subrange(8 + 4 * q, 12 + 4 * q));
            assert(le_bytes(subs[q], 4) == b.subrange(8 + 4 * q, 12 + 4 * q));
            assert(c[j] == le_chunks(subs)[4 * q + r]);
            assert(le_chunks(subs)[4 * q + r] == le_chunks(subs).subrange(4 * q, 4 * q + 4)[r]);
            assert(b.subrange(8 + 4 * q, 12 + 4 * q)[r] == b[j]);
        } else if j >= 2 {
            assert(c[j] == be_bytes(a, 6)[j - 2]);
            assert(b.subrange(2, 8)[j - 2] == b[j]);
        }
    }
    assert(c =~= b);
}

} // verus!
