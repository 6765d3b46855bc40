//! Writing an index file from the entries of a pack.

use crate::layout::{index_body, index_file, write_index, LARGE_OFFSET};
use crate::oid::{crc32, crc32_of, object_id, object_id_of, Header};
use crate::order::{
    has_conflict, has_shared_id, holds_object, is_one_of, lemma_rearranged, sort_entries,
    sort_entries_strict, strictly_ascending, Duplicate, IndexEntry,
};
use crate::oid::sha1_of;
use crate::bytes::{push_all, read_be32, read_be64};
use crate::laws::{crc_at, fan_out_at, id_at, ids_start, num_objects_at, pack_offset_at, word_at};
use crate::layout::signature;
use vstd::prelude::*;

verus! {

/// The on-disk layout versions of an index file.
#[derive(Clone, Copy, Debug, PartialEq, Eq, Hash, PartialOrd, Ord, Structural)]
pub enum Kind {
    V1,
    V2,
}

impl Default for Kind {
    /// The kind that is written: `V2`.
    fn default() -> (r: Kind)
        ensures
            r == Kind::V2,
    {
        Kind::V2
    }
}

/// An entry of a pack, decoded and decompressed.
#[derive(Clone, Debug, PartialEq, Eq, Hash, PartialOrd, Ord)]
pub struct Entry {
    pub header: Header,
    /// Amount of bytes used to encode the `header`. `pack_offset + header_size` is the
    /// beginning of the compressed data in the pack.
    pub header_size: u16,
    pub pack_offset: u64,
    /// Header and compressed bytes.
    pub bytes: Vec<u8>,
    pub decompressed: Vec<u8>,
}

/// What was written: the kind of index, the digest of the index file, and the number of
/// objects it lists.
#[derive(Clone, Copy, Debug, PartialEq, Eq, Hash, PartialOrd, Ord)]
pub struct Outcome {
    pub index_kind: Kind,
    pub index_hash: [u8; 20],
    pub num_objects: u32,
}

/// Why an index could not be written.
#[derive(Clone, Debug, PartialEq, Eq)]
pub enum Error<E> {
    /// Only indices of the default kind can be written.
    Unsupported(Kind),
    /// The sequence of pack entries failed.
    Source(E),
    /// Two entries share an identifier but differ in checksum or pack offset.
    Duplicate(Duplicate),
    /// More objects than an index file can address.
    TooManyObjects(usize),
}

/// `ie` is the index entry of `e`, which arrived at position `order`.
pub open spec fn indexes(ie: IndexEntry, e: Entry, order: int) -> bool {
    &&& ie.id@ == object_id_of(e.header, e.decompressed@)
    &&& ie.crc32 == crc32_of(e.bytes@)
    &&& ie.pack_offset == e.pack_offset
    &&& ie.order == order
}

/// `s` holds the index entries of `entries`, in the order they arrived.
pub open spec fn indexed(entries: Seq<Entry>, s: Seq<IndexEntry>) -> bool {
    &&& s.len() == entries.len()
    &&& forall|i: int| 0 <= i < s.len() ==> indexes(#[trigger] s[i], entries[i], i)
}

/// `s` is `entries` ordered by identifier, each object once.
pub open spec fn sorts(entries: Seq<IndexEntry>, s: Seq<IndexEntry>) -> bool {
    &&& strictly_ascending(s)
    &&& s.len() <= entries.len()
    &&& forall|i: int| 0 <= i < s.len() ==> is_one_of(entries, #[trigger] s[i])
    &&& forall|j: int| 0 <= j < entries.len() ==> holds_object(s, #[trigger] entries[j])
}

/// The result of indexing the entries `entries` of a pack whose digest is `pack_hash`:
/// the bytes of the index file and what describes them.
pub open spec fn writes(
    entries: Seq<Entry>,
    pack_hash: Seq<u8>,
    bytes: Seq<u8>,
    o: Outcome,
) -> bool {
    exists|t: Seq<IndexEntry>, s: Seq<IndexEntry>|
        #![trigger indexed(entries, t), sorts(t, s)]
        {
            &&& indexed(entries, t)
            &&& t.len() < LARGE_OFFSET
            &&& sorts(t, s)
            &&& bytes == index_file(s, pack_hash)
            &&& o.index_hash@ == sha1_of(index_body(s, pack_hash))
            &&& o.num_objects == s.len()
            &&& o.index_kind == Kind::V2
        }
}

/// Gathers the entries of a pack, one at a time, and writes their index once all have
/// been seen.
pub struct Collector {
    kind: Kind,
    entries: Vec<IndexEntry>,
    added: Ghost<Seq<Entry>>,
}

impl Collector {
    /// The entries added so far.
    pub closed spec fn added(&self) -> Seq<Entry> {
        self.added@
    }

    pub closed spec fn wf(&self) -> bool {
        &&& self.kind == Kind::V2
        &&& indexed(self.added@, self.entries@)
    }

    /// Starts collecting for an index of kind `kind`; fails at once unless `kind` is the
    /// default kind.
    pub fn new<E>(kind: Kind) -> (r: Result<Collector, Error<E>>)
        ensures
            kind == Kind::V2 ==> (r matches Ok(c) && c.wf() && c.added() == Seq::<Entry>::empty()),
            kind != Kind::V2 ==> r == Err::<Collector, Error<E>>(Error::Unsupported(kind)),
    {
        if kind != Kind::V2 {
            return Err(Error::Unsupported(kind));
        }
        Ok(Collector { kind, entries: Vec::new(), added: Ghost(Seq::empty()) })
    }

    /// Computes the identifier and checksum of `entry` and keeps them.
    pub fn add(&mut self, entry: &Entry)
        requires
            old(self).wf(),
        ensures
            final(self).wf(),
            final(self).added() == old(self).added().push(*entry),
    {
        let order = self.entries.len();
        let ie = IndexEntry {
            id: object_id(entry.header, entry.decompressed.as_slice()),
            crc32: crc32(entry.bytes.as_slice()),
            pack_offset: entry.pack_offset,
            order,
        };
        self.entries.push(ie);
        self.added = Ghost(self.added@.push(*entry));
        assert(indexes(self.entries@[order as int], self.added@[order as int], order as int));
    }

    /// Orders the collected entries and writes the index file of a pack whose digest is
    /// `pack_hash`.
    pub fn finish<E>(self, pack_hash: &[u8; 20]) -> (r: Result<(Vec<u8>, Outcome), Error<E>>)
        requires
            self.wf(),
        ensures
            self.added().len() >= LARGE_OFFSET ==> r == Err::<(Vec<u8>, Outcome), Error<E>>(
                Error::TooManyObjects(self.added().len() as usize),
            ),
            self.added().len() < LARGE_OFFSET ==> (r is Ok <==> !(exists|t: Seq<IndexEntry>|
                indexed(self.added(), t) && has_conflict(t))),
            r matches Err(Error::Duplicate(d)) ==> exists|t: Seq<IndexEntry>|
                indexed(self.added(), t) && has_conflict(t) && is_one_of(t, d.first) && is_one_of(
                    t,
                    d.second,
                ) && d.first.id@ == d.second.id@ && !d.first.same_object(d.second),
            r is Err ==> r matches Err(Error::Duplicate(_)) || r matches Err(
                Error::TooManyObjects(_),
            ),
            r matches Ok((bytes, o)) ==> writes(self.added(), pack_hash@, bytes@, o),
    {
        let n = self.entries.len();
        if n as u64 >= LARGE_OFFSET {
            return Err(Error::TooManyObjects(n));
        }
        let ghost entries = self.entries@;
        let ghost added = self.added@;
        match sort_entries(self.entries) {
            Ok(s) => {
                let (bytes, digest) = write_index(&s, pack_hash);
                let o = Outcome { index_kind: self.kind, index_hash: digest, num_objects: s.len() as u32 };
                assert(indexed(added, entries) && sorts(entries, s@));
                proof {
                    if exists|t: Seq<IndexEntry>| indexed(added, t) && has_conflict(t) {
                        let t = choose|t: Seq<IndexEntry>| indexed(added, t) && has_conflict(t);
                        let (a, b) = choose|a: int, b: int|
                            0 <= a < t.len() && 0 <= b < t.len() && #[trigger] t[a].id@
                                == #[trigger] t[b].id@ && !t[a].same_object(t[b]);
                        assert(indexes(t[a], added[a], a));
                        assert(indexes(t[b], added[b], b));
                        assert(indexes(entries[a], added[a], a));
                        assert(indexes(entries[b], added[b], b));
                        assert(entries[a].id@ == entries[b].id@);
                    }
                }
                Ok((bytes, o))
            },
            Err(d) => {
                assert(indexed(added, entries) && has_conflict(entries));
                Err(Error::Duplicate(d))
            },
        }
    }

    /// Like `finish`, but also refuses the same object added twice: any two entries
    /// that share an identifier are reported as a duplicate.
    pub fn finish_strict<E>(self, pack_hash: &[u8; 20]) -> (r: Result<(Vec<u8>, Outcome), Error<E>>)
        requires
            self.wf(),
        ensures
            self.added().len() >= LARGE_OFFSET ==> r == Err::<(Vec<u8>, Outcome), Error<E>>(
                Error::TooManyObjects(self.added().len() as usize),
            ),
            self.added().len() < LARGE_OFFSET ==> (r is Ok <==> !(exists|t: Seq<IndexEntry>|
                indexed(self.added(), t) && has_shared_id(t))),
            r matches Err(Error::Duplicate(d)) ==> d.first.id@ == d.second.id@ && exists|
                t: Seq<IndexEntry>,
            | indexed(self.added(), t) && is_one_of(t, d.first) && is_one_of(t, d.second),
            r is Err ==> r matches Err(Error::Duplicate(_)) || r matches Err(
                Error::TooManyObjects(_),
            ),
            r matches Ok((bytes, o)) ==> writes(self.added(), pack_hash@, bytes@, o),
    {
        let n = self.entries.len();
        if n as u64 >= LARGE_OFFSET {
            return Err(Error::TooManyObjects(n));
        }
        let ghost entries = self.entries@;
        let ghost added = self.added@;
        match sort_entries_strict(self.entries) {
            Ok(s) => {
                proof {
                    vstd::seq_lib::to_multiset_len(s@);
                    vstd::seq_lib::to_multiset_len(entries);
                }
                let (bytes, digest) = write_index(&s, pack_hash);
                let o = Outcome { index_kind: self.kind, index_hash: digest, num_objects: s.len() as u32 };
                proof {
                    vstd::seq_lib::to_multiset_len(s@);
                    vstd::seq_lib::to_multiset_len(entries);
                    assert forall|i: int| 0 <= i < s@.len() implies is_one_of(entries, #[trigger] s@[i]) by {
                        assert(is_one_of(s@, s@[i]));
                        lemma_rearranged(entries, s@, s@[i]);
                    }
                    assert forall|j: int| 0 <= j < entries.len() implies holds_object(s@, #[trigger] entries[j]) by {
                        assert(is_one_of(entries, entries[j]));
                        lemma_rearranged(entries, s@, entries[j]);
                        let k = choose|k: int| 0 <= k < s@.len() && #[trigger] s@[k] == entries[j];
                        assert(s@[k].same_object(entries[j]));
                    }
                    assert(indexed(added, entries) && sorts(entries, s@));
                    if exists|t: Seq<IndexEntry>| indexed(added, t) && has_shared_id(t) {
                        let t = choose|t: Seq<IndexEntry>| indexed(added, t) && has_shared_id(t);
                        let (a, b) = choose|a: int, b: int|
                            0 <= a < b < t.len() && #[trigger] t[a].id@ == #[trigger] t[b].id@;
                        assert(indexes(t[a], added[a], a));
                        assert(indexes(t[b], added[b], b));
                        assert(indexes(entries[a], added[a], a));
                        assert(indexes(entries[b], added[b], b));
                        assert(entries[a].id@ == entries[b].id@);
                    }
                }
                Ok((bytes, o))
            },
            Err(d) => {
                proof {
                    let (a, b) = choose|a: int, b: int|
                        0 <= a < entries.len() && 0 <= b < entries.len() && a != b
                            && #[trigger] entries[a] == d.first && #[trigger] entries[b] == d.second;
                    assert(is_one_of(entries, d.first));
                    assert(is_one_of(entries, d.second));
                    if a < b {
                        assert(entries[a].id@ == entries[b].id@);
                    } else {
                        assert(entries[b].id@ == entries[a].id@);
                    }
                    assert(has_shared_id(entries));
                }
                Err(Error::Duplicate(d))
            },
        }
    }
}

} // verus!

verus! {

/// The first failure in `entries` is at `f`: every entry before it decoded.
pub open spec fn first_failure<E>(entries: Seq<Result<Entry, E>>, f: int) -> bool {
    &&& 0 <= f < entries.len()
    &&& entries[f] is Err
    &&& forall|g: int| 0 <= g < f ==> (#[trigger] entries[g]) is Ok
}

/// The decoded entries, when every one of them decoded.
pub open spec fn all_ok<E>(entries: Seq<Result<Entry, E>>) -> Seq<Entry> {
    entries.map_values(|r: Result<Entry, E>| r->Ok_0)
}

/// An index file.
pub struct File {
    data: Vec<u8>,
}

impl View for File {
    type V = Seq<u8>;

    closed spec fn view(&self) -> Seq<u8> {
        self.data@
    }
}

proof fn lemma_table_bounds(n: int, i: int, len: int)
    requires
        0 <= i < n,
        ids_start() + 28 * n + 40 <= len,
    ensures
        ids_start() + 20 * i + 20 <= len - 40,
        ids_start() + 20 * n + 4 * i + 4 <= len - 40,
        ids_start() + 24 * n + 4 * i + 4 <= len - 40,
        20 * i <= 28 * n,
{
    assert(20 * i + 20 <= 28 * n) by (nonlinear_arith)
        requires
            0 <= i < n,
    ;
    assert(4 * i + 4 <= 4 * n) by (nonlinear_arith)
        requires
            0 <= i < n,
    ;
}

/// Bytes that can be read as an index file: the signature, and room for the tables
/// of as many objects as the last fan-out count says, and for the trailer.
pub open spec fn readable(f: Seq<u8>) -> bool {
    &&& f.len() >= ids_start() + 40
    &&& f.subrange(0, 4) == signature()
    &&& f.len() >= ids_start() + 28 * num_objects_at(f) + 40
}

impl File {
    /// Takes `data` as an index file, if it can be read as one.
    pub fn from_bytes(data: Vec<u8>) -> (r: Option<File>)
        ensures
            readable(data@) ==> (r matches Some(f) && f@ == data@),
            !readable(data@) ==> r is None,
    {
        if data.len() < 1068 {
            return None;
        }
        if data[0] != 0xff || data[1] != 0x74 || data[2] != 0x4f || data[3] != 0x63 {
            assert(data@[0] != signature()[0] || data@[1] != signature()[1] || data@[2]
                != signature()[2] || data@[3] != signature()[3]);
            return None;
        }
        assert(data@.subrange(0, 4) =~= signature());
        let n = read_be32(data.as_slice(), 1024) as usize;
        if (data.len() - 1068) / 28 < n {
            return None;
        }
        Some(File { data })
    }

    /// The number of objects listed: the last fan-out count.
    pub fn num_objects(&self) -> (r: u32)
        requires
            readable(self@),
        ensures
            r == num_objects_at(self@),
    {
        read_be32(self.data.as_slice(), 1024)
    }

    /// The number of objects whose identifier starts with a byte no greater than `b`.
    pub fn fan_out(&self, b: u8) -> (r: u32)
        requires
            readable(self@),
        ensures
            r == fan_out_at(self@, b as int),
    {
        read_be32(self.data.as_slice(), 4 + 4 * b as usize)
    }

    /// The identifier at position `i`.
    pub fn oid_at(&self, i: u32) -> (r: Vec<u8>)
        requires
            readable(self@),
            i < num_objects_at(self@),
        ensures
            r@ == id_at(self@, i as int),
    {
        let len = self.data.len();
        proof {
            lemma_table_bounds(num_objects_at(self@), i as int, len as int);
        }
        let start = 1028 + 20 * i as usize;
        let mut r: Vec<u8> = Vec::new();
        let mut k: usize = 0;
        while k < 20
            invariant
                k <= 20,
                start == ids_start() + 20 * i,
                start + 20 <= self.data@.len(),
                self.data@.len() == len,
                r@ == self.data@.subrange(start as int, start + k),
            decreases 20 - k,
        {
            r.push(self.data[start + k]);
            k = k + 1;
            assert(r@ =~= self.data@.subrange(start as int, start + k));
        }
        r
    }

    /// The checksum of the stored bytes of the object at position `i`.
    pub fn crc32_at(&self, i: u32) -> (r: u32)
        requires
            readable(self@),
            i < num_objects_at(self@),
        ensures
            r == crc_at(self@, num_objects_at(self@), i as int),
    {
        let len = self.data.len();
        let n = self.num_objects() as usize;
        proof {
            lemma_table_bounds(n as int, i as int, len as int);
        }
        read_be32(self.data.as_slice(), 1028 + 20 * n + 4 * i as usize)
    }

    /// The pack offset of the object at position `i`, looked up in the table of large
    /// offsets where its word says so; `None` when that slot lies past the tables.
    pub fn pack_offset_at(&self, i: u32) -> (r: Option<u64>)
        requires
            readable(self@),
            i < num_objects_at(self@),
        ensures
            ({
                let n = num_objects_at(self@);
                let w = word_at(self@, n, i as int);
                &&& w < LARGE_OFFSET ==> r == Some(w as u64)
                &&& w >= LARGE_OFFSET && ids_start() + 28 * n + 8 * (w - LARGE_OFFSET) + 8
                    <= self@.len() - 40 ==> r == Some(pack_offset_at(self@, n, i as int))
                &&& w >= LARGE_OFFSET && ids_start() + 28 * n + 8 * (w - LARGE_OFFSET) + 8
                    > self@.len() - 40 ==> r is None
            }),
    {
        let len = self.data.len();
        let n = self.num_objects() as usize;
        proof {
            lemma_table_bounds(n as int, i as int, len as int);
        }
        let w = read_be32(self.data.as_slice(), 1028 + 24 * n + 4 * i as usize);
        if (w as u64) < LARGE_OFFSET {
            return Some(w as u64);
        }
        let k = (w as u64 - LARGE_OFFSET) as usize;
        let tables_end = 1028 + 28 * n;
        if (self.data.len() - 40 - tables_end) / 8 < k + 1 {
            return None;
        }
        Some(read_be64(self.data.as_slice(), tables_end + 8 * k))
    }

    /// Writes the index of the pack entries `entries`, taken in order, for a pack whose
    /// digest is `pack_hash`, by appending it to `out`. An unsupported `kind` fails before
    /// any entry is looked at; the first failing entry stops the work and its error is
    /// returned. Nothing is appended unless the whole index is.
    pub fn write_to_stream<E>(
        entries: Vec<Result<Entry, E>>,
        out: &mut Vec<u8>,
        kind: Kind,
        pack_hash: &[u8; 20],
    ) -> (r: Result<Outcome, Error<E>>)
        ensures
            kind != Kind::V2 ==> r == Err::<Outcome, Error<E>>(Error::Unsupported(kind)),
            kind == Kind::V2 ==> ((exists|f: int| first_failure(entries@, f)) <==> r matches Err(
                Error::Source(_),
            )),
            r matches Err(Error::Source(e)) ==> exists|f: int|
                first_failure(entries@, f) && entries@[f] == Err::<Entry, E>(e),
            r matches Ok(o) ==> {
                &&& forall|g: int| 0 <= g < entries@.len() ==> (#[trigger] entries@[g]) is Ok
                &&& exists|bytes: Seq<u8>|
                    writes(all_ok(entries@), pack_hash@, bytes, o) && final(out)@ == old(out)@
                        + bytes
            },
            r is Err ==> final(out)@ == old(out)@,
            kind == Kind::V2 ==> !(r matches Err(Error::Unsupported(_))),
            kind == Kind::V2 && !(exists|f: int| first_failure(entries@, f)) ==> {
                &&& entries@.len() >= LARGE_OFFSET ==> r == Err::<Outcome, Error<E>>(
                    Error::TooManyObjects(entries@.len() as usize),
                )
                &&& entries@.len() < LARGE_OFFSET ==> (r is Ok <==> !(exists|t: Seq<IndexEntry>|
                    indexed(all_ok(entries@), t) && has_conflict(t)))
            },
            r matches Err(Error::Duplicate(d)) ==> exists|t: Seq<IndexEntry>|
                indexed(all_ok(entries@), t) && has_conflict(t) && is_one_of(t, d.first)
                    && is_one_of(t, d.second) && d.first.id@ == d.second.id@
                    && !d.first.same_object(d.second),
    {
        let mut c = match Collector::new(kind) {
            Ok(c) => c,
            Err(e) => return Err(e),
        };
        let ghost given = entries@;
        let mut pending = entries;
        let mut i: usize = 0;
        while i < pending.len()
            invariant
                c.wf(),
                kind == Kind::V2,
                out@ == old(out)@,
                pending@ == given,
                given == entries@,
                i <= given.len(),
                c.added().len() == i,
                forall|g: int| 0 <= g < i ==> (#[trigger] given[g]) is Ok && c.added()[g]
                    == given[g]->Ok_0,
            decreases given.len() - i,
        {
            match &pending[i] {
                Ok(e) => {
                    c.add(e);
                },
                Err(_) => {
                    proof {
                        assert(first_failure(pending@, i as int));
                    }
                    let ghost before = pending@;
                    let failed = pending.remove(i);
                    return match failed {
                        Err(e) => {
                            assert(before[i as int] == Err::<Entry, E>(e));
                            Err(Error::Source(e))
                        },
                        Ok(_) => {
                            assert(before[i as int] is Err);
                            assert(false);
                            Err(Error::TooManyObjects(0))
                        },
                    };
                },
            }
            i = i + 1;
        }
        proof {
            assert(c.added() =~= all_ok(given));
            if exists|f: int| first_failure(given, f) {
                let f = choose|f: int| first_failure(given, f);
                assert(given[f] is Ok);
            }
        }
        match c.finish(pack_hash) {
            Ok((bytes, o)) => {
                push_all(out, bytes.as_slice());
                Ok(o)
            },
            Err(e) => Err(e),
        }
    }
}

} // verus!
