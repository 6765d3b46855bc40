//! Content identifiers of objects and integrity checksums of their stored bytes.

use crate::bytes::{decimal, push_all, push_decimal};
use vstd::prelude::*;

verus! {

/// The SHA-1 digest of a byte sequence.
pub uninterp spec fn sha1_of(data: Seq<u8>) -> Seq<u8>;

/// The CRC-32 (IEEE) checksum of a byte sequence.
pub uninterp spec fn crc32_of(data: Seq<u8>) -> u32;

/// Relies on sha1_smol::Sha1::from and Digest::bytes: the twenty-byte SHA-1 digest of `data`.
#[verifier::external_body]
pub(crate) fn sha1(data: &[u8]) -> (r: [u8; 20])
    ensures
        r@ == sha1_of(data@),
{
    sha1_smol::Sha1::from(data).digest().bytes()
}

/// Relies on crc32fast::hash: the CRC-32 checksum of `data`.
#[verifier::external_body]
pub(crate) fn crc32(data: &[u8]) -> (r: u32)
    ensures
        r == crc32_of(data@),
{
    crc32fast::hash(data)
}

/// The kind of an object, as recorded in the header of its pack entry.
#[derive(Clone, Copy, Debug, PartialEq, Eq, Hash, PartialOrd, Ord, Structural)]
pub enum Header {
    Commit,
    Tree,
    Blob,
    Tag,
}

impl Header {
    /// The textual name of the kind, as it appears in the identifier preamble.
    pub open spec fn name(self) -> Seq<u8> {
        match self {
            Header::Commit => seq![99u8, 111, 109, 109, 105, 116],
            Header::Tree => seq![116u8, 114, 101, 101],
            Header::Blob => seq![98u8, 108, 111, 98],
            Header::Tag => seq![116u8, 97, 103],
        }
    }

    /// Appends the textual name of the kind (`commit`, `tree`, `blob` or `tag`).
    pub fn push_name(&self, out: &mut Vec<u8>)
        ensures
            final(out)@ == old(out)@ + self.name(),
    {
        let ghost start = out@;
        match self {
            Header::Commit => {
                out.push(99u8);
                out.push(111u8);
                out.push(109u8);
                out.push(109u8);
                out.push(105u8);
                out.push(116u8);
            },
            Header::Tree => {
                out.push(116u8);
                out.push(114u8);
                out.push(101u8);
                out.push(101u8);
            },
            Header::Blob => {
                out.push(98u8);
                out.push(108u8);
                out.push(111u8);
                out.push(98u8);
            },
            Header::Tag => {
                out.push(116u8);
                out.push(97u8);
                out.push(103u8);
            },
        }
        assert(out@ =~= start + self.name());
    }
}

/// What is hashed to identify an object: its kind's name, a space, the decimal
/// length of its content, a null byte, and then the content itself.
pub open spec fn object_preimage(kind: Header, content: Seq<u8>) -> Seq<u8> {
    kind.name() + seq![32u8] + decimal(content.len()) + seq![0u8] + content
}

/// The identifier of an object of kind `kind` whose decompressed bytes are `content`.
pub open spec fn object_id_of(kind: Header, content: Seq<u8>) -> Seq<u8> {
    sha1_of(object_preimage(kind, content))
}

/// Computes the content identifier of an object from its kind and decompressed bytes.
pub fn object_id(kind: Header, content: &[u8]) -> (r: [u8; 20])
    ensures
        r@ == object_id_of(kind, content@),
{
    let mut buf: Vec<u8> = Vec::new();
    kind.push_name(&mut buf);
    buf.push(32u8);
    push_decimal(&mut buf, content.len() as u64);
    buf.push(0u8);
    push_all(&mut buf, content);
    assert(buf@ =~= object_preimage(kind, content@));
    sha1(buf.as_slice())
}

/// Computes the integrity checksum of the stored (framed and compressed) bytes of an entry.
pub fn entry_crc32(stored: &[u8]) -> (r: u32)
    ensures
        r == crc32_of(stored@),
{
    crc32(stored)
}

} // verus!
