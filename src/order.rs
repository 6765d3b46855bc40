//! Ordering of index entries by identifier, with detection of repeated identifiers.

use vstd::prelude::*;

verus! {

/// An entry of the index: an object's identifier, the checksum of its stored bytes,
/// where it starts in the pack, and its position in the order the entries arrived.
#[derive(Clone, Copy, Debug, PartialEq, Eq)]
pub struct IndexEntry {
    pub id: [u8; 20],
    pub crc32: u32,
    pub pack_offset: u64,
    pub order: usize,
}

impl IndexEntry {
    /// Two entries agree on everything derived from the object: identifier, checksum
    /// and pack offset (the arrival position is not compared).
    pub open spec fn same_object(self, other: IndexEntry) -> bool {
        self.id@ == other.id@ && self.crc32 == other.crc32 && self.pack_offset
            == other.pack_offset
    }
}

/// `a` and `b` agree before position `k`, and `a` holds the smaller byte at `k`.
pub open spec fn first_smaller_at(a: Seq<u8>, b: Seq<u8>, k: int) -> bool {
    &&& 0 <= k < a.len()
    &&& k < b.len()
    &&& forall|j: int| 0 <= j < k ==> a[j] == b[j]
    &&& a[k] < b[k]
}

/// Unsigned byte-wise (lexicographic) order of identifiers of equal width.
pub open spec fn id_lt(a: Seq<u8>, b: Seq<u8>) -> bool {
    exists|k: int| #[trigger] first_smaller_at(a, b, k)
}

/// Identifiers ascend strictly along `s`.
pub open spec fn strictly_ascending(s: Seq<IndexEntry>) -> bool {
    forall|i: int, j: int| 0 <= i < j < s.len() ==> id_lt(#[trigger] s[i].id@, #[trigger] s[j].id@)
}

/// Two of the entries share an identifier but not their checksum or pack offset.
pub open spec fn has_conflict(entries: Seq<IndexEntry>) -> bool {
    exists|a: int, b: int|
        0 <= a < entries.len() && 0 <= b < entries.len() && #[trigger] entries[a].id@
            == #[trigger] entries[b].id@ && !entries[a].same_object(entries[b])
}

/// `e` is one of the entries of `s`.
pub open spec fn is_one_of(s: Seq<IndexEntry>, e: IndexEntry) -> bool {
    exists|j: int| 0 <= j < s.len() && #[trigger] s[j] == e
}

/// Some entry of `s` agrees with `e` on identifier, checksum and offset.
pub open spec fn holds_object(s: Seq<IndexEntry>, e: IndexEntry) -> bool {
    exists|i: int| 0 <= i < s.len() && #[trigger] s[i].same_object(e)
}

/// The byte-wise order is transitive.
pub proof fn lemma_id_lt_transitive(a: Seq<u8>, b: Seq<u8>, c: Seq<u8>)
    requires
        id_lt(a, b),
        id_lt(b, c),
    ensures
        id_lt(a, c),
{
    let k1 = choose|k: int| first_smaller_at(a, b, k);
    let k2 = choose|k: int| first_smaller_at(b, c, k);
    if k1 <= k2 {
        assert(first_smaller_at(a, c, k1));
    } else {
        assert(first_smaller_at(a, c, k2));
    }
}

/// The byte-wise order is irreflexive and asymmetric.
pub proof fn lemma_id_lt_asymmetric(a: Seq<u8>, b: Seq<u8>)
    ensures
        !(id_lt(a, b) && id_lt(b, a)),
        !id_lt(a, a),
{
    if id_lt(a, b) && id_lt(b, a) {
        lemma_id_lt_transitive(a, b, a);
    }
}

/// How two identifiers compare.
pub enum IdOrder {
    Less,
    Equal,
    Greater,
}

/// Compares two identifiers byte by byte, as unsigned values.
pub fn compare_ids(a: &[u8; 20], b: &[u8; 20]) -> (r: IdOrder)
    ensures
        r is Less <==> id_lt(a@, b@),
        r is Equal <==> a@ == b@,
        r is Greater <==> id_lt(b@, a@),
{
    proof {
        lemma_id_lt_asymmetric(a@, b@);
    }
    let mut i: usize = 0;
    while i < 20
        invariant
            i <= 20,
            a@.len() == 20,
            b@.len() == 20,
            forall|j: int| 0 <= j < i ==> a@[j] == b@[j],
        decreases 20 - i,
    {
        if a[i] < b[i] {
            assert(first_smaller_at(a@, b@, i as int));
            return IdOrder::Less;
        }
        if a[i] > b[i] {
            assert(first_smaller_at(b@, a@, i as int));
            return IdOrder::Greater;
        }
        i = i + 1;
    }
    assert(a@ =~= b@);
    IdOrder::Equal
}

/// Relies on slice::sort_by_key, with the identifier as key: the entries are
/// rearranged, none added or lost, so that identifiers never decrease (byte arrays
/// compare lexicographically). The sort is stable.
#[verifier::external_body]
fn sort_by_id(v: &mut Vec<IndexEntry>)
    ensures
        final(v)@.to_multiset() == old(v)@.to_multiset(),
        forall|i: int, j: int|
            0 <= i < j < final(v)@.len() ==> !id_lt(
                #[trigger] final(v)@[j].id@,
                #[trigger] final(v)@[i].id@,
            ),
{
    v.sort_by_key(|e| e.id);
}

/// An entry found in a rearrangement of `s` is one of the entries of `s`.
pub proof fn lemma_rearranged(s: Seq<IndexEntry>, r: Seq<IndexEntry>, e: IndexEntry)
    requires
        r.to_multiset() == s.to_multiset(),
    ensures
        is_one_of(r, e) <==> is_one_of(s, e),
{
    vstd::seq_lib::to_multiset_contains(s, e);
    vstd::seq_lib::to_multiset_contains(r, e);
    if is_one_of(r, e) {
        let j = choose|j: int| 0 <= j < r.len() && #[trigger] r[j] == e;
        assert(r.contains(e));
        assert(s.contains(e));
    }
    if is_one_of(s, e) {
        let j = choose|j: int| 0 <= j < s.len() && #[trigger] s[j] == e;
        assert(s.contains(e));
        assert(r.contains(e));
    }
}

/// Entries whose objects all stand in a strictly ascending sequence cannot conflict:
/// each identifier stands there once, with one checksum and one offset.
pub proof fn lemma_covered_no_conflict(entries: Seq<IndexEntry>, s: Seq<IndexEntry>)
    requires
        strictly_ascending(s),
        forall|j: int| 0 <= j < entries.len() ==> holds_object(s, #[trigger] entries[j]),
    ensures
        !has_conflict(entries),
{
    if has_conflict(entries) {
        let (a, b) = choose|a: int, b: int|
            0 <= a < entries.len() && 0 <= b < entries.len() && #[trigger] entries[a].id@
                == #[trigger] entries[b].id@ && !entries[a].same_object(entries[b]);
        assert(holds_object(s, entries[a]));
        assert(holds_object(s, entries[b]));
        let ia = choose|i: int| 0 <= i < s.len() && #[trigger] s[i].same_object(entries[a]);
        let ib = choose|i: int| 0 <= i < s.len() && #[trigger] s[i].same_object(entries[b]);
        if ia < ib {
            lemma_id_lt_asymmetric(s[ia].id@, s[ib].id@);
        } else if ib < ia {
            lemma_id_lt_asymmetric(s[ib].id@, s[ia].id@);
        }
    }
}

/// Two entries that share an identifier but were derived from different objects.
#[derive(Clone, Copy, Debug, PartialEq, Eq)]
pub struct Duplicate {
    pub first: IndexEntry,
    pub second: IndexEntry,
}

/// Sorts entries by identifier. An entry whose identifier, checksum and offset all
/// equal those of an earlier entry is the same object added again and is kept once;
/// an entry that shares only the identifier with another is reported as a duplicate.
pub fn sort_entries(entries: Vec<IndexEntry>) -> (r: Result<Vec<IndexEntry>, Duplicate>)
    ensures
        r is Ok <==> !has_conflict(entries@),
        r matches Ok(s) ==> {
            &&& strictly_ascending(s@)
            &&& s@.len() <= entries@.len()
            &&& forall|i: int| 0 <= i < s@.len() ==> is_one_of(entries@, #[trigger] s@[i])
            &&& forall|j: int| 0 <= j < entries@.len() ==> holds_object(s@, #[trigger] entries@[j])
        },
        r matches Err(d) ==> {
            &&& d.first.id@ == d.second.id@
            &&& !d.first.same_object(d.second)
            &&& is_one_of(entries@, d.first)
            &&& is_one_of(entries@, d.second)
        },
{
    let ghost given = entries@;
    let mut v = entries;
    sort_by_id(&mut v);
    proof {
        vstd::seq_lib::to_multiset_len(v@);
        vstd::seq_lib::to_multiset_len(given);
    }
    let mut out: Vec<IndexEntry> = Vec::new();
    let mut i: usize = 0;
    while i < v.len()
        invariant
            i <= v@.len(),
            given == entries@,
            v@.to_multiset() == given.to_multiset(),
            v@.len() == given.len(),
            forall|a: int, b: int| 0 <= a < b < v@.len() ==> !id_lt(#[trigger] v@[b].id@, #[trigger] v@[a].id@),
            strictly_ascending(out@),
            out@.len() <= i,
            i == 0 <==> out@.len() == 0,
            i > 0 ==> out@.last().id@ == v@[i - 1].id@,
            forall|k: int| 0 <= k < out@.len() ==> is_one_of(v@, #[trigger] out@[k]),
            forall|k: int| 0 <= k < i ==> holds_object(out@, #[trigger] v@[k]),
        decreases v@.len() - i,
    {
        let e = v[i];
        if i == 0 {
            out.push(e);
            assert(out@[0] == v@[0]);
            assert(out@[0].same_object(v@[0]));
            assert(is_one_of(v@, out@[0]));
        } else {
            let last = out[out.len() - 1];
            let ghost before = out@;
            match compare_ids(&last.id, &e.id) {
                IdOrder::Equal => {
                    if last.crc32 != e.crc32 || last.pack_offset != e.pack_offset {
                        proof {
                            assert(is_one_of(v@, before.last()));
                            assert(is_one_of(v@, v@[i as int]));
                            lemma_rearranged(given, v@, last);
                            lemma_rearranged(given, v@, e);
                            lemma_dup_conflict(given, last, e);
                        }
                        return Err(Duplicate { first: last, second: e });
                    }
                    assert(out@[out@.len() - 1].same_object(v@[i as int]));
                },
                IdOrder::Less => {
                    out.push(e);
                    proof {
                        assert forall|a: int, b: int| 0 <= a < b < out@.len() implies id_lt(
                            #[trigger] out@[a].id@,
                            #[trigger] out@[b].id@,
                        ) by {
                            if b == out@.len() - 1 && a < b - 1 {
                                lemma_id_lt_transitive(out@[a].id@, before.last().id@, e.id@);
                            }
                        }
                        assert forall|k: int| 0 <= k < i + 1 implies holds_object(
                            out@,
                            #[trigger] v@[k],
                        ) by {
                            if k < i {
                                assert(holds_object(before, v@[k]));
                                let m = choose|m: int|
                                    0 <= m < before.len() && #[trigger] before[m].same_object(v@[k]);
                                assert(out@[m].same_object(v@[k]));
                            } else {
                                assert(out@[out@.len() - 1].same_object(v@[k]));
                            }
                        }
                    }
                },
                IdOrder::Greater => {
                    assert(!id_lt(v@[i as int].id@, v@[i - 1].id@));
                    assert(false);
                },
            }
        }
        i = i + 1;
    }
    proof {
        assert forall|k: int| 0 <= k < out@.len() implies is_one_of(given, #[trigger] out@[k]) by {
            lemma_rearranged(given, v@, out@[k]);
        }
        assert forall|j: int| 0 <= j < given.len() implies holds_object(out@, #[trigger] given[j]) by {
            assert(given[j] == given[j]);
            assert(is_one_of(given, given[j]));
            lemma_rearranged(given, v@, given[j]);
            let k = choose|k: int| 0 <= k < v@.len() && #[trigger] v@[k] == given[j];
            assert(holds_object(out@, v@[k]));
        }
        lemma_covered_no_conflict(given, out@);
    }
    Ok(out)
}

/// Two entries of `s` with one identifier and different objects are a conflict.
proof fn lemma_dup_conflict(s: Seq<IndexEntry>, x: IndexEntry, y: IndexEntry)
    requires
        is_one_of(s, x),
        is_one_of(s, y),
        x.id@ == y.id@,
        !x.same_object(y),
    ensures
        has_conflict(s),
{
    let a = choose|j: int| 0 <= j < s.len() && #[trigger] s[j] == x;
    let b = choose|j: int| 0 <= j < s.len() && #[trigger] s[j] == y;
    assert(s[a].id@ == s[b].id@);
}

} // verus!

verus! {

/// Two of the entries, at different positions, share an identifier.
pub open spec fn has_shared_id(entries: Seq<IndexEntry>) -> bool {
    exists|a: int, b: int|
        0 <= a < b < entries.len() && #[trigger] entries[a].id@ == #[trigger] entries[b].id@
}

/// Entries at two positions of `s` stand at two positions of any rearrangement `t`.
proof fn lemma_two_positions(s: Seq<IndexEntry>, t: Seq<IndexEntry>, p: int, q: int) -> (ab: (
    int,
    int,
))
    requires
        s.to_multiset() == t.to_multiset(),
        0 <= p < q < s.len(),
    ensures
        0 <= ab.0 < t.len(),
        0 <= ab.1 < t.len(),
        ab.0 != ab.1,
        t[ab.0] == s[p],
        t[ab.1] == s[q],
{
    let x = s[p];
    let y = s[q];
    vstd::seq_lib::to_multiset_remove(s, p);
    assert(s.remove(p)[q - 1] == y);
    assert(s.remove(p).contains(y));
    vstd::seq_lib::to_multiset_contains(s.remove(p), y);
    assert(s.contains(x));
    vstd::seq_lib::to_multiset_contains(s, x);
    vstd::seq_lib::to_multiset_contains(t, x);
    assert(t.contains(x));
    let a = choose|a: int| 0 <= a < t.len() && t[a] == x;
    vstd::seq_lib::to_multiset_remove(t, a);
    vstd::seq_lib::to_multiset_contains(t.remove(a), y);
    assert(t.remove(a).contains(y));
    let c = choose|c: int| 0 <= c < t.remove(a).len() && t.remove(a)[c] == y;
    let b = if c < a {
        c
    } else {
        c + 1
    };
    (a, b)
}

/// Sorts entries by identifier and reports any two entries that share an identifier,
/// even when they are the same object added twice.
pub fn sort_entries_strict(entries: Vec<IndexEntry>) -> (r: Result<Vec<IndexEntry>, Duplicate>)
    ensures
        r is Ok <==> !has_shared_id(entries@),
        r matches Ok(s) ==> strictly_ascending(s@) && s@.to_multiset() == entries@.to_multiset(),
        r matches Err(d) ==> {
            &&& d.first.id@ == d.second.id@
            &&& exists|a: int, b: int|
                0 <= a < entries@.len() && 0 <= b < entries@.len() && a != b && #[trigger] entries@[a]
                    == d.first && #[trigger] entries@[b] == d.second
        },
{
    let ghost given = entries@;
    let mut v = entries;
    sort_by_id(&mut v);
    let mut i: usize = 1;
    while i < v.len()
        invariant
            1 <= i,
            given == entries@,
            v@.to_multiset() == given.to_multiset(),
            forall|a: int, b: int| 0 <= a < b < v@.len() ==> !id_lt(#[trigger] v@[b].id@, #[trigger] v@[a].id@),
            forall|a: int, b: int| 0 <= a < b < v@.len() && b < i ==> id_lt(#[trigger] v@[a].id@, #[trigger] v@[b].id@),
        decreases v@.len() - i,
    {
        match compare_ids(&v[i - 1].id, &v[i].id) {
            IdOrder::Less => {
                proof {
                    assert forall|a: int, b: int| 0 <= a < b < v@.len() && b < i + 1 implies id_lt(
                        #[trigger] v@[a].id@,
                        #[trigger] v@[b].id@,
                    ) by {
                        if b == i && a < i - 1 {
                            lemma_id_lt_transitive(v@[a].id@, v@[i - 1].id@, v@[b].id@);
                        }
                    }
                }
            },
            IdOrder::Equal => {
                let ghost (a, b) = lemma_two_positions(v@, given, i - 1, i as int);
                proof {
                    if a < b {
                        assert(given[a].id@ == given[b].id@);
                    } else {
                        assert(given[b].id@ == given[a].id@);
                    }
                }
                return Err(Duplicate { first: v[i - 1], second: v[i] });
            },
            IdOrder::Greater => {
                assert(!id_lt(v@[i as int].id@, v@[i - 1].id@));
                assert(false);
            },
        }
        i = i + 1;
    }
    proof {
        assert(strictly_ascending(v@));
        if has_shared_id(given) {
            let (a, b) = choose|a: int, b: int|
                0 <= a < b < given.len() && #[trigger] given[a].id@ == #[trigger] given[b].id@;
            let (p, q) = lemma_two_positions(given, v@, a, b);
            if p < q {
                assert(id_lt(v@[p].id@, v@[q].id@));
                lemma_id_lt_asymmetric(v@[p].id@, v@[q].id@);
            } else {
                assert(id_lt(v@[q].id@, v@[p].id@));
                lemma_id_lt_asymmetric(v@[q].id@, v@[p].id@);
            }
        }
    }
    Ok(v)
}

} // verus!
