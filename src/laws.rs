//! What holds of every index file this library writes, read back from its bytes.

use crate::bytes::{from_be32, from_be64, lemma_be32_round_trip, lemma_be64_round_trip};
use crate::fanout::{count_leading_le, fan_out_of, lemma_count_bounds};
use crate::layout::{
    counts_bytes, crcs_bytes, ids_bytes, index_body, index_file, large_count, large_offsets_bytes,
    offset_word, offsets_bytes, signature, LARGE_OFFSET,
};
use crate::oid::{crc32_of, object_id_of, sha1_of};
use crate::order::{
    has_conflict, holds_object, id_lt, is_one_of, lemma_covered_no_conflict, lemma_id_lt_asymmetric,
    lemma_id_lt_transitive, strictly_ascending, IndexEntry,
};
use crate::sections::{
    lemma_counts_at, lemma_crcs_at, lemma_ids_at, lemma_large_at, lemma_large_len,
    lemma_offsets_at,
};
use crate::write::{indexed, indexes, readable, sorts, writes, Entry, Kind, Outcome};
use vstd::prelude::*;

verus! {

/// Where the identifier table starts: after the signature and the fan-out table.
pub open spec fn ids_start() -> int {
    1028
}

/// The fan-out count stored for leading byte `b`.
pub open spec fn fan_out_at(f: Seq<u8>, b: int) -> u32 {
    from_be32(f.subrange(4 + 4 * b, 8 + 4 * b))
}

/// The number of objects an index file lists: its last fan-out count.
pub open spec fn num_objects_at(f: Seq<u8>) -> int {
    fan_out_at(f, 255) as int
}

/// The identifier stored at position `i` of an index of `n` objects.
pub open spec fn id_at(f: Seq<u8>, i: int) -> Seq<u8> {
    f.subrange(ids_start() + 20 * i, ids_start() + 20 * i + 20)
}

/// The checksum stored at position `i` of an index of `n` objects.
pub open spec fn crc_at(f: Seq<u8>, n: int, i: int) -> u32 {
    from_be32(f.subrange(ids_start() + 20 * n + 4 * i, ids_start() + 20 * n + 4 * i + 4))
}

/// The offset word stored at position `i` of an index of `n` objects.
pub open spec fn word_at(f: Seq<u8>, n: int, i: int) -> u32 {
    from_be32(f.subrange(ids_start() + 24 * n + 4 * i, ids_start() + 24 * n + 4 * i + 4))
}

/// The large offset stored at position `k` of the table of large offsets of an index
/// of `n` objects.
pub open spec fn large_at(f: Seq<u8>, n: int, k: int) -> u64 {
    from_be64(f.subrange(ids_start() + 28 * n + 8 * k, ids_start() + 28 * n + 8 * k + 8))
}

/// The pack offset of the object at position `i`, read through the table of large
/// offsets where its word says so.
pub open spec fn pack_offset_at(f: Seq<u8>, n: int, i: int) -> u64 {
    let w = word_at(f, n, i);
    if w < LARGE_OFFSET {
        w as u64
    } else {
        large_at(f, n, w - LARGE_OFFSET)
    }
}

/// How many of the first `n` identifiers stored start with a byte no greater than `b`.
pub open spec fn count_ids_le(f: Seq<u8>, n: int, b: int) -> nat
    decreases n,
{
    if n <= 0 {
        0
    } else {
        count_ids_le(f, n - 1, b) + if id_at(f, n - 1)[0] <= b {
            1nat
        } else {
            0nat
        }
    }
}

proof fn lemma_subrange_of_concat(a: Seq<u8>, x: Seq<u8>, b: Seq<u8>, lo: int, hi: int)
    requires
        0 <= lo <= hi <= x.len(),
    ensures
        (a + x + b).subrange(a.len() + lo, a.len() + hi) == x.subrange(lo, hi),
{
    assert((a + x + b).subrange(a.len() + lo, a.len() + hi) =~= x.subrange(lo, hi));
}

/// Reading the index file of the sorted entries `s` back gives, at each position,
/// the fan-out counts, identifiers, checksums, offset words and large offsets of `s`.
pub proof fn lemma_file_layout(s: Seq<IndexEntry>, pack_hash: Seq<u8>)
    requires
        s.len() < LARGE_OFFSET,
    ensures
        ({
            let f = index_file(s, pack_hash);
            let n = s.len() as int;
            &&& f.len() == ids_start() + 28 * n + 8 * large_count(s) + pack_hash.len() + sha1_of(
                index_body(s, pack_hash),
            ).len()
            &&& forall|b: int| 0 <= b < 256 ==> #[trigger] fan_out_at(f, b) == count_leading_le(s, b)
            &&& num_objects_at(f) == n
            &&& forall|i: int| 0 <= i < n ==> #[trigger] id_at(f, i) == s[i].id@
            &&& forall|i: int| 0 <= i < n ==> #[trigger] crc_at(f, n, i) == s[i].crc32
            &&& forall|i: int| 0 <= i < n ==> #[trigger] word_at(f, n, i) == offset_word(s, i)
            &&& forall|i: int|
                0 <= i < n && s[i].pack_offset >= LARGE_OFFSET ==> #[trigger] large_count(s.take(i))
                    < large_count(s)
            &&& forall|i: int|
                0 <= i < n && s[i].pack_offset >= LARGE_OFFSET ==> #[trigger] large_at(
                    f,
                    n,
                    large_count(s.take(i)) as int,
                ) == s[i].pack_offset
            &&& forall|i: int| 0 <= i < n ==> #[trigger] pack_offset_at(f, n, i) == s[i].pack_offset
        }),
{
    let f = index_file(s, pack_hash);
    let n = s.len() as int;
    let sig = signature();
    let c = counts_bytes(fan_out_of(s));
    let ids = ids_bytes(s);
    let crcs = crcs_bytes(s);
    let offs = offsets_bytes(s);
    let large = large_offsets_bytes(s);
    let tail = pack_hash + sha1_of(index_body(s, pack_hash));
    crate::sections::lemma_counts_len(fan_out_of(s));
    crate::sections::lemma_ids_len(s);
    crate::sections::lemma_crcs_len(s);
    crate::sections::lemma_offsets_len(s);
    lemma_large_len(s);
    assert(f =~= sig + c + (ids + crcs + offs + large + tail));
    assert(f =~= (sig + c) + ids + (crcs + offs + large + tail));
    assert(f =~= (sig + c + ids) + crcs + (offs + large + tail));
    assert(f =~= (sig + c + ids + crcs) + offs + (large + tail));
    assert(f =~= (sig + c + ids + crcs + offs) + large + tail);
    assert forall|b: int| 0 <= b < 256 implies #[trigger] fan_out_at(f, b) == count_leading_le(
        s,
        b,
    ) by {
        lemma_counts_at(fan_out_of(s), b);
        lemma_subrange_of_concat(sig, c, ids + crcs + offs + large + tail, 4 * b, 4 * b + 4);
        lemma_count_bounds(s, b);
        lemma_be32_round_trip(count_leading_le(s, b) as u32);
    }
    lemma_count_bounds(s, 255);
    assert(fan_out_at(f, 255) == count_leading_le(s, 255));
    assert forall|i: int| 0 <= i < n implies #[trigger] id_at(f, i) == s[i].id@ by {
        lemma_ids_at(s, i);
        lemma_subrange_of_concat(sig + c, ids, crcs + offs + large + tail, 20 * i, 20 * i + 20);
    }
    assert forall|i: int| 0 <= i < n implies #[trigger] crc_at(f, n, i) == s[i].crc32 by {
        lemma_crcs_at(s, i);
        lemma_subrange_of_concat(sig + c + ids, crcs, offs + large + tail, 4 * i, 4 * i + 4);
        lemma_be32_round_trip(s[i].crc32);
    }
    assert forall|i: int| 0 <= i < n implies #[trigger] word_at(f, n, i) == offset_word(s, i) by {
        lemma_offsets_at(s, i);
        lemma_subrange_of_concat(sig + c + ids + crcs, offs, large + tail, 4 * i, 4 * i + 4);
        lemma_be32_round_trip(offset_word(s, i));
    }
    assert forall|i: int|
        0 <= i < n && s[i].pack_offset >= LARGE_OFFSET implies #[trigger] large_count(s.take(i))
        < large_count(s) && large_at(f, n, large_count(s.take(i)) as int) == s[i].pack_offset by {
        let k = large_count(s.take(i)) as int;
        lemma_large_at(s, i);
        lemma_subrange_of_concat(sig + c + ids + crcs + offs, large, tail, 8 * k, 8 * k + 8);
        lemma_be64_round_trip(s[i].pack_offset);
    }
    assert forall|i: int| 0 <= i < n implies #[trigger] pack_offset_at(f, n, i)
        == s[i].pack_offset by {
        assert(word_at(f, n, i) == offset_word(s, i));
        lemma_large_len(s.take(i));
        if s[i].pack_offset >= LARGE_OFFSET {
            assert(large_at(f, n, large_count(s.take(i)) as int) == s[i].pack_offset);
        }
    }
}

} // verus!

verus! {

/// The index entries and their sorted sequence that an outcome of `writes` was made of.
proof fn lemma_written(entries: Seq<Entry>, pack_hash: Seq<u8>, bytes: Seq<u8>, o: Outcome) -> (ts: (
    Seq<IndexEntry>,
    Seq<IndexEntry>,
))
    requires
        writes(entries, pack_hash, bytes, o),
    ensures
        indexed(entries, ts.0),
        ts.0.len() < LARGE_OFFSET,
        sorts(ts.0, ts.1),
        bytes == index_file(ts.1, pack_hash),
        o.index_hash@ == sha1_of(index_body(ts.1, pack_hash)),
        o.num_objects == ts.1.len(),
        o.index_kind == Kind::V2,
{
    choose|t: Seq<IndexEntry>, s: Seq<IndexEntry>|
        #![trigger indexed(entries, t), sorts(t, s)]
        {
            &&& indexed(entries, t)
            &&& t.len() < LARGE_OFFSET
            &&& sorts(t, s)
            &&& bytes == index_file(s, pack_hash)
            &&& o.index_hash@ == sha1_of(index_body(s, pack_hash))
            &&& o.num_objects == s.len()
            &&& o.index_kind == Kind::V2
        }
}

/// The identifiers of an index file ascend strictly, and the last fan-out count is
/// their number.
pub proof fn law_ids_ascending(entries: Seq<Entry>, pack_hash: Seq<u8>, bytes: Seq<u8>, o: Outcome)
    requires
        writes(entries, pack_hash, bytes, o),
    ensures
        num_objects_at(bytes) == o.num_objects,
        forall|i: int, j: int|
            0 <= i < j < o.num_objects ==> id_lt(#[trigger] id_at(bytes, i), #[trigger] id_at(bytes, j)),
{
    let (t, s) = lemma_written(entries, pack_hash, bytes, o);
    lemma_file_layout(s, pack_hash);
    assert forall|i: int, j: int| 0 <= i < j < o.num_objects implies id_lt(
        #[trigger] id_at(bytes, i),
        #[trigger] id_at(bytes, j),
    ) by {
        assert(id_lt(s[i].id@, s[j].id@));
    }
}

/// Counting the leading bytes of the identifiers in the file counts those of `s`.
proof fn lemma_count_ids(f: Seq<u8>, s: Seq<IndexEntry>, k: int, b: int)
    requires
        0 <= k <= s.len(),
        forall|i: int| 0 <= i < s.len() ==> #[trigger] id_at(f, i) == s[i].id@,
    ensures
        count_ids_le(f, k, b) == count_leading_le(s.take(k), b),
    decreases k,
{
    if k > 0 {
        lemma_count_ids(f, s, k - 1, b);
        assert(s.take(k).drop_last() =~= s.take(k - 1));
        assert(id_at(f, k - 1) == s[k - 1].id@);
    }
}

/// Each fan-out count of an index file is the number of its identifiers whose leading
/// byte is no greater than the count's byte.
pub proof fn law_fan_out_counts(entries: Seq<Entry>, pack_hash: Seq<u8>, bytes: Seq<u8>, o: Outcome)
    requires
        writes(entries, pack_hash, bytes, o),
    ensures
        forall|b: int|
            0 <= b < 256 ==> #[trigger] fan_out_at(bytes, b) == count_ids_le(
                bytes,
                o.num_objects as int,
                b,
            ),
{
    let (t, s) = lemma_written(entries, pack_hash, bytes, o);
    lemma_file_layout(s, pack_hash);
    assert forall|b: int| 0 <= b < 256 implies #[trigger] fan_out_at(bytes, b) == count_ids_le(
        bytes,
        o.num_objects as int,
        b,
    ) by {
        lemma_count_ids(bytes, s, s.len() as int, b);
        assert(s.take(s.len() as int) =~= s);
    }
}

/// Reading an index file back gives, for every entry that went in, a position holding
/// its identifier, the checksum of its stored bytes, and its pack offset.
pub proof fn law_round_trip(entries: Seq<Entry>, pack_hash: Seq<u8>, bytes: Seq<u8>, o: Outcome)
    requires
        writes(entries, pack_hash, bytes, o),
    ensures
        forall|j: int|
            0 <= j < entries.len() ==> exists|i: int|
                0 <= i < o.num_objects && #[trigger] id_at(bytes, i) == object_id_of(
                    (#[trigger] entries[j]).header,
                    entries[j].decompressed@,
                ) && crc_at(bytes, o.num_objects as int, i) == crc32_of(entries[j].bytes@)
                    && pack_offset_at(bytes, o.num_objects as int, i) == entries[j].pack_offset,
{
    let (t, s) = lemma_written(entries, pack_hash, bytes, o);
    lemma_file_layout(s, pack_hash);
    let n = o.num_objects as int;
    assert forall|j: int| 0 <= j < entries.len() implies exists|i: int|
        0 <= i < o.num_objects && #[trigger] id_at(bytes, i) == object_id_of(
            (#[trigger] entries[j]).header,
            entries[j].decompressed@,
        ) && crc_at(bytes, n, i) == crc32_of(entries[j].bytes@) && pack_offset_at(bytes, n, i)
            == entries[j].pack_offset by {
        assert(indexes(t[j], entries[j], j));
        assert(holds_object(s, t[j]));
        let i = choose|i: int| 0 <= i < s.len() && #[trigger] s[i].same_object(t[j]);
        assert(id_at(bytes, i) == s[i].id@);
        assert(crc_at(bytes, n, i) == s[i].crc32);
        assert(pack_offset_at(bytes, n, i) == s[i].pack_offset);
    }
}

/// An entry whose pack offset needs more than 31 bits is stored through the table of
/// large offsets: its word has the high bit set, the low 31 bits index that table,
/// the slot lies before the trailer, and it holds the full offset.
pub proof fn law_large_offsets(entries: Seq<Entry>, pack_hash: Seq<u8>, bytes: Seq<u8>, o: Outcome)
    requires
        writes(entries, pack_hash, bytes, o),
        pack_hash.len() == 20,
    ensures
        forall|j: int|
            0 <= j < entries.len() && (#[trigger] entries[j]).pack_offset >= LARGE_OFFSET
                ==> exists|i: int|
                0 <= i < o.num_objects && #[trigger] id_at(bytes, i) == object_id_of(
                    entries[j].header,
                    entries[j].decompressed@,
                ) && word_at(bytes, o.num_objects as int, i) >= LARGE_OFFSET && ids_start() + 28
                    * o.num_objects + 8 * (word_at(bytes, o.num_objects as int, i) - LARGE_OFFSET)
                    + 8 <= bytes.len() - 40 && large_at(
                    bytes,
                    o.num_objects as int,
                    word_at(bytes, o.num_objects as int, i) - LARGE_OFFSET,
                ) == entries[j].pack_offset,
{
    let (t, s) = lemma_written(entries, pack_hash, bytes, o);
    lemma_file_layout(s, pack_hash);
    let n = o.num_objects as int;
    assert(o.index_hash@.len() == 20);
    assert(bytes.len() == ids_start() + 28 * n + 8 * large_count(s) + 40);
    assert forall|i: int|
        0 <= i < n && s[i].pack_offset >= LARGE_OFFSET implies #[trigger] word_at(bytes, n, i)
        >= LARGE_OFFSET && word_at(bytes, n, i) - LARGE_OFFSET < large_count(s) && large_at(
        bytes,
        n,
        word_at(bytes, n, i) - LARGE_OFFSET,
    ) == s[i].pack_offset by {
        lemma_large_len(s.take(i));
        assert(word_at(bytes, n, i) == offset_word(s, i));
        assert(large_count(s.take(i)) < large_count(s));
        assert(large_at(bytes, n, large_count(s.take(i)) as int) == s[i].pack_offset);
    }
    assert forall|j: int|
        0 <= j < entries.len() && (#[trigger] entries[j]).pack_offset >= LARGE_OFFSET implies exists|
        i: int,
    |
        0 <= i < o.num_objects && #[trigger] id_at(bytes, i) == object_id_of(
            entries[j].header,
            entries[j].decompressed@,
        ) && word_at(bytes, n, i) >= LARGE_OFFSET && ids_start() + 28 * o.num_objects + 8 * (
        word_at(bytes, n, i) - LARGE_OFFSET) + 8 <= bytes.len() - 40 && large_at(
            bytes,
            n,
            word_at(bytes, n, i) - LARGE_OFFSET,
        ) == entries[j].pack_offset by {
        assert(indexes(t[j], entries[j], j));
        assert(holds_object(s, t[j]));
        let i = choose|i: int| 0 <= i < s.len() && #[trigger] s[i].same_object(t[j]);
        assert(id_at(bytes, i) == s[i].id@);
        assert(word_at(bytes, n, i) >= LARGE_OFFSET);
    }
}

} // verus!

verus! {

/// Two entries of the same kind and content get the same identifier. When their stored
/// bytes' checksums or their pack offsets differ, the entries conflict and no index is
/// written for them; when their stored bytes and offsets agree, so do all the fields
/// derived from them, and they do not conflict with each other.
pub proof fn law_duplicates(entries: Seq<Entry>, t: Seq<IndexEntry>, a: int, b: int)
    requires
        indexed(entries, t),
        0 <= a < entries.len(),
        0 <= b < entries.len(),
        entries[a].header == entries[b].header,
        entries[a].decompressed@ == entries[b].decompressed@,
    ensures
        t[a].id@ == t[b].id@,
        crc32_of(entries[a].bytes@) != crc32_of(entries[b].bytes@) || entries[a].pack_offset
            != entries[b].pack_offset ==> has_conflict(t) && forall|
            pack_hash: Seq<u8>,
            bytes: Seq<u8>,
            o: Outcome,
        | !#[trigger] writes(entries, pack_hash, bytes, o),
        entries[a].bytes@ == entries[b].bytes@ && entries[a].pack_offset == entries[b].pack_offset
            ==> t[a].same_object(t[b]),
{
    assert(indexes(t[a], entries[a], a));
    assert(indexes(t[b], entries[b], b));
    if crc32_of(entries[a].bytes@) != crc32_of(entries[b].bytes@) || entries[a].pack_offset
        != entries[b].pack_offset {
        assert(!t[a].same_object(t[b]));
        assert(has_conflict(t));
        assert forall|pack_hash: Seq<u8>, bytes: Seq<u8>, o: Outcome| !#[trigger] writes(
            entries,
            pack_hash,
            bytes,
            o,
        ) by {
            if writes(entries, pack_hash, bytes, o) {
                let (t2, s) = lemma_written(entries, pack_hash, bytes, o);
                lemma_covered_no_conflict(t2, s);
                assert(indexes(t2[a], entries[a], a));
                assert(indexes(t2[b], entries[b], b));
                assert(t2[a].id@ == t2[b].id@ && !t2[a].same_object(t2[b]));
            }
        }
    }
}

/// The last entries of two strictly ascending sequences that hold the same objects
/// hold the same object.
proof fn lemma_last_agree(s1: Seq<IndexEntry>, s2: Seq<IndexEntry>)
    requires
        s1.len() > 0,
        s2.len() > 0,
        strictly_ascending(s1),
        strictly_ascending(s2),
        forall|i: int| 0 <= i < s1.len() ==> holds_object(s2, #[trigger] s1[i]),
        forall|i: int| 0 <= i < s2.len() ==> holds_object(s1, #[trigger] s2[i]),
    ensures
        s1.last().same_object(s2.last()),
{
    let l1 = s1.len() - 1;
    let l2 = s2.len() - 1;
    assert(holds_object(s2, s1[l1]));
    assert(holds_object(s1, s2[l2]));
    let j = choose|j: int| 0 <= j < s2.len() && #[trigger] s2[j].same_object(s1[l1]);
    let k = choose|k: int| 0 <= k < s1.len() && #[trigger] s1[k].same_object(s2[l2]);
    if j < l2 {
        assert(id_lt(s2[j].id@, s2[l2].id@));
        if k < l1 {
            assert(id_lt(s1[k].id@, s1[l1].id@));
            lemma_id_lt_transitive(s1[l1].id@, s2[l2].id@, s1[l1].id@);
        }
        lemma_id_lt_asymmetric(s1[l1].id@, s1[l1].id@);
    }
}

/// Without their last entries, which agree, the sequences still cover each other.
proof fn lemma_cover_drop_last(s1: Seq<IndexEntry>, s2: Seq<IndexEntry>)
    requires
        s1.len() > 0,
        s2.len() > 0,
        strictly_ascending(s1),
        strictly_ascending(s2),
        s1.last().same_object(s2.last()),
        forall|i: int| 0 <= i < s1.len() ==> holds_object(s2, #[trigger] s1[i]),
    ensures
        forall|i: int|
            0 <= i < s1.drop_last().len() ==> holds_object(s2.drop_last(), #[trigger] s1.drop_last()[i]),
{
    let d1 = s1.drop_last();
    let d2 = s2.drop_last();
    let l1 = s1.len() - 1;
    let l2 = s2.len() - 1;
    assert forall|i: int| 0 <= i < d1.len() implies holds_object(d2, #[trigger] d1[i]) by {
        assert(holds_object(s2, s1[i]));
        let m = choose|m: int| 0 <= m < s2.len() && #[trigger] s2[m].same_object(s1[i]);
        assert(id_lt(s1[i].id@, s1[l1].id@));
        if m == l2 {
            lemma_id_lt_asymmetric(s1[i].id@, s1[i].id@);
        }
        assert(d2[m].same_object(d1[i]));
    }
}

/// Strictly ascending sequences that hold the same objects hold them in the same
/// places.
proof fn lemma_sorted_unique(s1: Seq<IndexEntry>, s2: Seq<IndexEntry>)
    requires
        strictly_ascending(s1),
        strictly_ascending(s2),
        forall|i: int| 0 <= i < s1.len() ==> holds_object(s2, #[trigger] s1[i]),
        forall|i: int| 0 <= i < s2.len() ==> holds_object(s1, #[trigger] s2[i]),
    ensures
        s1.len() == s2.len(),
        forall|i: int| 0 <= i < s1.len() ==> (#[trigger] s1[i]).same_object(s2[i]),
    decreases s1.len() + s2.len(),
{
    if s1.len() == 0 && s2.len() > 0 {
        assert(holds_object(s1, s2[0]));
    } else if s2.len() == 0 && s1.len() > 0 {
        assert(holds_object(s2, s1[0]));
    } else if s1.len() > 0 {
        lemma_last_agree(s1, s2);
        lemma_cover_drop_last(s1, s2);
        lemma_cover_drop_last(s2, s1);
        let d1 = s1.drop_last();
        let d2 = s2.drop_last();
        lemma_sorted_unique(d1, d2);
        assert forall|i: int| 0 <= i < s1.len() implies (#[trigger] s1[i]).same_object(s2[i]) by {
            if i < s1.len() - 1 {
                assert(d1[i].same_object(d2[i]));
            }
        }
    }
}

/// The index file of a sorted sequence depends only on the identifiers, checksums and
/// offsets it holds.
proof fn lemma_same_objects_same_file(s1: Seq<IndexEntry>, s2: Seq<IndexEntry>)
    requires
        s1.len() == s2.len(),
        forall|i: int| 0 <= i < s1.len() ==> (#[trigger] s1[i]).same_object(s2[i]),
    ensures
        forall|b: int| #[trigger] count_leading_le(s1, b) == count_leading_le(s2, b),
        large_count(s1) == large_count(s2),
        ids_bytes(s1) == ids_bytes(s2),
        crcs_bytes(s1) == crcs_bytes(s2),
        offsets_bytes(s1) == offsets_bytes(s2),
        large_offsets_bytes(s1) == large_offsets_bytes(s2),
    decreases s1.len(),
{
    if s1.len() > 0 {
        let l = s1.len() - 1;
        lemma_same_objects_same_file(s1.drop_last(), s2.drop_last());
        assert(s1[l].same_object(s2[l]));
        assert(s1.take(l) =~= s1.drop_last());
        assert(s2.take(l) =~= s2.drop_last());
        assert(offset_word(s1, l) == offset_word(s2, l));
        assert forall|b: int| #[trigger] count_leading_le(s1, b) == count_leading_le(s2, b) by {
            assert(count_leading_le(s1.drop_last(), b) == count_leading_le(s2.drop_last(), b));
        }
    }
}

/// Indexing the same entries twice gives the same bytes and the same outcome.
pub proof fn law_deterministic(
    entries: Seq<Entry>,
    pack_hash: Seq<u8>,
    bytes1: Seq<u8>,
    o1: Outcome,
    bytes2: Seq<u8>,
    o2: Outcome,
)
    requires
        writes(entries, pack_hash, bytes1, o1),
        writes(entries, pack_hash, bytes2, o2),
    ensures
        bytes1 == bytes2,
        o1.index_hash@ == o2.index_hash@,
        o1.num_objects == o2.num_objects,
        o1.index_kind == o2.index_kind,
{
    let (t1, s1) = lemma_written(entries, pack_hash, bytes1, o1);
    let (t2, s2) = lemma_written(entries, pack_hash, bytes2, o2);
    assert forall|i: int| 0 <= i < s1.len() implies holds_object(s2, #[trigger] s1[i]) by {
        assert(is_one_of(t1, s1[i]));
        let j = choose|j: int| 0 <= j < t1.len() && #[trigger] t1[j] == s1[i];
        assert(indexes(t1[j], entries[j], j));
        assert(indexes(t2[j], entries[j], j));
        assert(holds_object(s2, t2[j]));
        let m = choose|m: int| 0 <= m < s2.len() && #[trigger] s2[m].same_object(t2[j]);
        assert(s2[m].same_object(s1[i]));
    }
    assert forall|i: int| 0 <= i < s2.len() implies holds_object(s1, #[trigger] s2[i]) by {
        assert(is_one_of(t2, s2[i]));
        let j = choose|j: int| 0 <= j < t2.len() && #[trigger] t2[j] == s2[i];
        assert(indexes(t1[j], entries[j], j));
        assert(indexes(t2[j], entries[j], j));
        assert(holds_object(s1, t1[j]));
        let m = choose|m: int| 0 <= m < s1.len() && #[trigger] s1[m].same_object(t1[j]);
        assert(s1[m].same_object(s2[i]));
    }
    lemma_sorted_unique(s1, s2);
    lemma_same_objects_same_file(s1, s2);
    assert(fan_out_of(s1) =~= fan_out_of(s2));
    assert(index_body(s1, pack_hash) == index_body(s2, pack_hash));
}

} // verus!

verus! {

/// Every index file written can be read back as one.
pub proof fn law_written_is_readable(
    entries: Seq<Entry>,
    pack_hash: Seq<u8>,
    bytes: Seq<u8>,
    o: Outcome,
)
    requires
        writes(entries, pack_hash, bytes, o),
        pack_hash.len() == 20,
    ensures
        readable(bytes),
        num_objects_at(bytes) == o.num_objects,
{
    let (t, s) = lemma_written(entries, pack_hash, bytes, o);
    lemma_file_layout(s, pack_hash);
    assert(o.index_hash@.len() == 20);
    assert(bytes.subrange(0, 4) =~= signature());
}

} // verus!
