//! The byte layout of an index file and the serializer that produces it.
//!
//! In order: a four-byte signature, the fan-out table (256 big-endian 32-bit counts),
//! the identifiers, the checksums (big-endian 32-bit), the offsets (big-endian 32-bit,
//! the high bit marking an index into the table of large offsets), the large offsets
//! (big-endian 64-bit), the digest of the pack, and the digest of all that precedes it.

use crate::bytes::{be32, be64, push_all, push_be32, push_be64};
use crate::fanout::{fan_out, fan_out_of};
use crate::oid::{sha1, sha1_of};
use crate::order::IndexEntry;
use vstd::prelude::*;

verus! {

/// Offsets from this value on do not fit in 31 bits and go to the table of large offsets.
pub const LARGE_OFFSET: u64 = 0x8000_0000;

/// The signature that opens an index file of the supported kind.
pub open spec fn signature() -> Seq<u8> {
    seq![0xffu8, 0x74u8, 0x4fu8, 0x63u8]
}

/// Number of entries of `s` whose offset goes to the table of large offsets.
pub open spec fn large_count(s: Seq<IndexEntry>) -> nat
    decreases s.len(),
{
    if s.len() == 0 {
        0
    } else {
        large_count(s.drop_last()) + if s.last().pack_offset >= LARGE_OFFSET {
            1nat
        } else {
            0nat
        }
    }
}

/// The 32-bit offset word of entry `i`: the offset itself when it fits in 31 bits,
/// else the high bit together with the entry's index in the table of large offsets.
pub open spec fn offset_word(s: Seq<IndexEntry>, i: int) -> u32 {
    if s[i].pack_offset < LARGE_OFFSET {
        s[i].pack_offset as u32
    } else {
        (LARGE_OFFSET + large_count(s.take(i))) as u32
    }
}

/// The fan-out table in bytes.
pub open spec fn counts_bytes(f: Seq<u32>) -> Seq<u8>
    decreases f.len(),
{
    if f.len() == 0 {
        Seq::empty()
    } else {
        counts_bytes(f.drop_last()) + be32(f.last())
    }
}

/// The identifiers, one after the other.
pub open spec fn ids_bytes(s: Seq<IndexEntry>) -> Seq<u8>
    decreases s.len(),
{
    if s.len() == 0 {
        Seq::empty()
    } else {
        ids_bytes(s.drop_last()) + s.last().id@
    }
}

/// The checksums, one after the other.
pub open spec fn crcs_bytes(s: Seq<IndexEntry>) -> Seq<u8>
    decreases s.len(),
{
    if s.len() == 0 {
        Seq::empty()
    } else {
        crcs_bytes(s.drop_last()) + be32(s.last().crc32)
    }
}

/// The offset words, one after the other.
pub open spec fn offsets_bytes(s: Seq<IndexEntry>) -> Seq<u8>
    decreases s.len(),
{
    if s.len() == 0 {
        Seq::empty()
    } else {
        offsets_bytes(s.drop_last()) + be32(offset_word(s, s.len() - 1))
    }
}

/// The large offsets, in the order of their entries.
pub open spec fn large_offsets_bytes(s: Seq<IndexEntry>) -> Seq<u8>
    decreases s.len(),
{
    if s.len() == 0 {
        Seq::empty()
    } else {
        large_offsets_bytes(s.drop_last()) + if s.last().pack_offset >= LARGE_OFFSET {
            be64(s.last().pack_offset)
        } else {
            Seq::empty()
        }
    }
}

/// Everything of the index file of the sorted entries `s` up to its own digest.
pub open spec fn index_body(s: Seq<IndexEntry>, pack_hash: Seq<u8>) -> Seq<u8> {
    signature() + counts_bytes(fan_out_of(s)) + ids_bytes(s) + crcs_bytes(s) + offsets_bytes(s)
        + large_offsets_bytes(s) + pack_hash
}

/// The index file of the sorted entries `s`: its body followed by the body's digest.
pub open spec fn index_file(s: Seq<IndexEntry>, pack_hash: Seq<u8>) -> Seq<u8> {
    index_body(s, pack_hash) + sha1_of(index_body(s, pack_hash))
}

/// An output that keeps every byte written to it, and whose digest over all of them
/// can be taken only by closing it, after which nothing more can be written.
pub struct HashWrite {
    out: Vec<u8>,
}

impl View for HashWrite {
    type V = Seq<u8>;

    closed spec fn view(&self) -> Seq<u8> {
        self.out@
    }
}

impl HashWrite {
    /// An output with nothing written yet.
    pub fn new() -> (r: HashWrite)
        ensures
            r@ == Seq::<u8>::empty(),
    {
        HashWrite { out: Vec::new() }
    }

    /// Writes `data`.
    pub fn write(&mut self, data: &[u8])
        ensures
            final(self)@ == old(self)@ + data@,
    {
        push_all(&mut self.out, data);
    }

    /// Writes one byte.
    pub fn write_byte(&mut self, x: u8)
        ensures
            final(self)@ == old(self)@.push(x),
    {
        self.out.push(x);
    }

    /// Writes the four bytes of `x`, most significant first.
    pub fn write_be32(&mut self, x: u32)
        ensures
            final(self)@ == old(self)@ + be32(x),
    {
        push_be32(&mut self.out, x);
    }

    /// Writes the eight bytes of `x`, most significant first.
    pub fn write_be64(&mut self, x: u64)
        ensures
            final(self)@ == old(self)@ + be64(x),
    {
        push_be64(&mut self.out, x);
    }

    /// Closes the output: appends the digest of everything written and returns all
    /// bytes together with that digest.
    pub fn finish(self) -> (r: (Vec<u8>, [u8; 20]))
        ensures
            r.1@ == sha1_of(self@),
            r.0@ == self@ + sha1_of(self@),
    {
        let mut out = self.out;
        let digest = sha1(out.as_slice());
        push_all(&mut out, &digest);
        (out, digest)
    }
}

/// Serializes the index file of the entries `s`, which must be sorted, and returns
/// its bytes together with the digest of everything before that digest.
pub fn write_index(s: &Vec<IndexEntry>, pack_hash: &[u8; 20]) -> (r: (Vec<u8>, [u8; 20]))
    requires
        s@.len() < LARGE_OFFSET,
    ensures
        r.0@ == index_file(s@, pack_hash@),
        r.1@ == sha1_of(index_body(s@, pack_hash@)),
{
    let mut w = HashWrite::new();
    w.write_byte(0xffu8);
    w.write_byte(0x74u8);
    w.write_byte(0x4fu8);
    w.write_byte(0x63u8);
    assert(w@ =~= signature());
    let ghost head = w@;

    let fan = fan_out(s);
    let mut b: usize = 0;
    while b < 256
        invariant
            b <= 256,
            fan@ == fan_out_of(s@),
            w@ == head + counts_bytes(fan@.take(b as int)),
        decreases 256 - b,
    {
        assert(fan@.take(b + 1).drop_last() =~= fan@.take(b as int));
        w.write_be32(fan[b]);
        b = b + 1;
    }
    assert(fan@.take(256) =~= fan@);
    let ghost head = w@;

    let mut i: usize = 0;
    while i < s.len()
        invariant
            i <= s@.len(),
            w@ == head + ids_bytes(s@.take(i as int)),
        decreases s@.len() - i,
    {
        assert(s@.take(i + 1).drop_last() =~= s@.take(i as int));
        w.write(&s[i].id);
        i = i + 1;
    }
    assert(s@.take(s@.len() as int) =~= s@);
    let ghost head = w@;

    let mut i: usize = 0;
    while i < s.len()
        invariant
            i <= s@.len(),
            w@ == head + crcs_bytes(s@.take(i as int)),
        decreases s@.len() - i,
    {
        assert(s@.take(i + 1).drop_last() =~= s@.take(i as int));
        w.write_be32(s[i].crc32);
        i = i + 1;
    }
    let ghost head = w@;

    let mut i: usize = 0;
    let mut large: u32 = 0;
    while i < s.len()
        invariant
            i <= s@.len() < LARGE_OFFSET,
            large == large_count(s@.take(i as int)),
            large <= i,
            w@ == head + offsets_bytes(s@.take(i as int)),
        decreases s@.len() - i,
    {
        let ghost t = s@.take(i + 1);
        assert(t.drop_last() =~= s@.take(i as int));
        assert(t.take(i as int) =~= s@.take(i as int));
        let offset = s[i].pack_offset;
        if offset < LARGE_OFFSET {
            w.write_be32(offset as u32);
        } else {
            w.write_be32(0x8000_0000u32 + large);
            large = large + 1;
        }
        i = i + 1;
    }
    let ghost head = w@;

    let mut i: usize = 0;
    while i < s.len()
        invariant
            i <= s@.len(),
            w@ == head + large_offsets_bytes(s@.take(i as int)),
        decreases s@.len() - i,
    {
        assert(s@.take(i + 1).drop_last() =~= s@.take(i as int));
        let offset = s[i].pack_offset;
        if offset >= LARGE_OFFSET {
            w.write_be64(offset);
        } else {
            assert(w@ =~= head + large_offsets_bytes(s@.take(i + 1)));
        }
        i = i + 1;
    }
    w.write(pack_hash);
    assert(w@ =~= index_body(s@, pack_hash@));
    w.finish()
}

} // verus!
