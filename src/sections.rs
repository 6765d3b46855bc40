//! Where each value stands inside the sections of an index file.

use crate::bytes::{be32, be64};
use crate::layout::{
    counts_bytes, crcs_bytes, ids_bytes, large_count, large_offsets_bytes, offset_word,
    offsets_bytes, LARGE_OFFSET,
};
use crate::order::IndexEntry;
use vstd::prelude::*;

verus! {

/// The fan-out section holds the count for byte `b` at `4 * b`.
pub proof fn lemma_counts_at(f: Seq<u32>, b: int)
    requires
        0 <= b < f.len(),
    ensures
        counts_bytes(f).len() == 4 * f.len(),
        counts_bytes(f).subrange(4 * b, 4 * b + 4) == be32(f[b]),
    decreases f.len(),
{
    lemma_counts_len(f);
    if b < f.len() - 1 {
        lemma_counts_at(f.drop_last(), b);
        assert(counts_bytes(f).subrange(4 * b, 4 * b + 4) =~= counts_bytes(f.drop_last()).subrange(
            4 * b,
            4 * b + 4,
        ));
    } else {
        lemma_counts_len(f.drop_last());
        assert(counts_bytes(f).subrange(4 * b, 4 * b + 4) =~= be32(f[b]));
    }
}

pub proof fn lemma_counts_len(f: Seq<u32>)
    ensures
        counts_bytes(f).len() == 4 * f.len(),
    decreases f.len(),
{
    if f.len() > 0 {
        lemma_counts_len(f.drop_last());
    }
}

/// The identifier section holds the identifier of entry `i` at `20 * i`.
pub proof fn lemma_ids_at(s: Seq<IndexEntry>, i: int)
    requires
        0 <= i < s.len(),
    ensures
        ids_bytes(s).len() == 20 * s.len(),
        ids_bytes(s).subrange(20 * i, 20 * i + 20) == s[i].id@,
    decreases s.len(),
{
    lemma_ids_len(s);
    lemma_ids_len(s.drop_last());
    if i < s.len() - 1 {
        lemma_ids_at(s.drop_last(), i);
        assert(ids_bytes(s).subrange(20 * i, 20 * i + 20) =~= ids_bytes(s.drop_last()).subrange(
            20 * i,
            20 * i + 20,
        ));
    } else {
        assert(ids_bytes(s).subrange(20 * i, 20 * i + 20) =~= s[i].id@);
    }
}

pub proof fn lemma_ids_len(s: Seq<IndexEntry>)
    ensures
        ids_bytes(s).len() == 20 * s.len(),
    decreases s.len(),
{
    if s.len() > 0 {
        lemma_ids_len(s.drop_last());
    }
}

/// The checksum section holds the checksum of entry `i` at `4 * i`.
pub proof fn lemma_crcs_at(s: Seq<IndexEntry>, i: int)
    requires
        0 <= i < s.len(),
    ensures
        crcs_bytes(s).len() == 4 * s.len(),
        crcs_bytes(s).subrange(4 * i, 4 * i + 4) == be32(s[i].crc32),
    decreases s.len(),
{
    lemma_crcs_len(s);
    lemma_crcs_len(s.drop_last());
    if i < s.len() - 1 {
        lemma_crcs_at(s.drop_last(), i);
        assert(crcs_bytes(s).subrange(4 * i, 4 * i + 4) =~= crcs_bytes(s.drop_last()).subrange(
            4 * i,
            4 * i + 4,
        ));
    } else {
        assert(crcs_bytes(s).subrange(4 * i, 4 * i + 4) =~= be32(s[i].crc32));
    }
}

pub proof fn lemma_crcs_len(s: Seq<IndexEntry>)
    ensures
        crcs_bytes(s).len() == 4 * s.len(),
    decreases s.len(),
{
    if s.len() > 0 {
        lemma_crcs_len(s.drop_last());
    }
}

/// The offset section holds the offset word of entry `i` at `4 * i`.
pub proof fn lemma_offsets_at(s: Seq<IndexEntry>, i: int)
    requires
        0 <= i < s.len(),
    ensures
        offsets_bytes(s).len() == 4 * s.len(),
        offsets_bytes(s).subrange(4 * i, 4 * i + 4) == be32(offset_word(s, i)),
    decreases s.len(),
{
    lemma_offsets_len(s);
    lemma_offsets_len(s.drop_last());
    if i < s.len() - 1 {
        lemma_offsets_at(s.drop_last(), i);
        assert(s.drop_last().take(i) =~= s.take(i));
        assert(offsets_bytes(s).subrange(4 * i, 4 * i + 4) =~= offsets_bytes(
            s.drop_last(),
        ).subrange(4 * i, 4 * i + 4));
    } else {
        assert(offsets_bytes(s).subrange(4 * i, 4 * i + 4) =~= be32(offset_word(s, i)));
    }
}

pub proof fn lemma_offsets_len(s: Seq<IndexEntry>)
    ensures
        offsets_bytes(s).len() == 4 * s.len(),
    decreases s.len(),
{
    if s.len() > 0 {
        lemma_offsets_len(s.drop_last());
    }
}

/// The table of large offsets takes eight bytes for each entry with a large offset.
pub proof fn lemma_large_len(s: Seq<IndexEntry>)
    ensures
        large_offsets_bytes(s).len() == 8 * large_count(s),
        large_count(s) <= s.len(),
    decreases s.len(),
{
    if s.len() > 0 {
        lemma_large_len(s.drop_last());
    }
}

/// The table of large offsets holds the offset of entry `i`, when it is large, at
/// eight times the number of large offsets before it.
pub proof fn lemma_large_at(s: Seq<IndexEntry>, i: int)
    requires
        0 <= i < s.len(),
        s[i].pack_offset >= LARGE_OFFSET,
    ensures
        large_count(s.take(i)) < large_count(s),
        large_offsets_bytes(s).subrange(8 * large_count(s.take(i)) as int, 8 * large_count(s.take(i)) as int + 8)
            == be64(s[i].pack_offset),
    decreases s.len(),
{
    let k = large_count(s.take(i)) as int;
    lemma_large_len(s);
    lemma_large_len(s.drop_last());
    if i < s.len() - 1 {
        lemma_large_at(s.drop_last(), i);
        assert(s.drop_last().take(i) =~= s.take(i));
        assert(large_offsets_bytes(s).subrange(8 * k, 8 * k + 8) =~= large_offsets_bytes(
            s.drop_last(),
        ).subrange(8 * k, 8 * k + 8));
    } else {
        assert(s.take(i) =~= s.drop_last());
        assert(large_offsets_bytes(s).subrange(8 * k, 8 * k + 8) =~= be64(s[i].pack_offset));
    }
}

} // verus!
