use git_index_write::bytes::{push_be32, push_be64, push_decimal, read_be32, read_be64};
use git_index_write::packet_line::{
    hex_prefix, BytesSource, DecodeError, PacketLine, PacketLineOrWantedSize, ReadError, Reader,
};

#[test]
fn reads_lines_until_flush() {
    let mut r = Reader::new(BytesSource::new(b"0006a\n0007bc\n00000009hello".to_vec()));
    assert_eq!(r.read_line(), Some(Ok(Ok(PacketLine::Data(b"a\n".to_vec())))));
    assert_eq!(r.read_line(), Some(Ok(Ok(PacketLine::Data(b"bc\n".to_vec())))));
    assert_eq!(r.read_line(), None);
    assert_eq!(r.read_line(), None);
    r.reset();
    assert_eq!(r.read_line(), Some(Ok(Ok(PacketLine::Data(b"hello".to_vec())))));
    assert_eq!(r.read_line(), Some(Err(ReadError::UnexpectedEof)));
}

#[test]
fn bad_prefixes_are_reported() {
    let mut r = Reader::new(BytesSource::new(b"0004zz0005".to_vec()));
    assert_eq!(r.read_line(), Some(Ok(Err(DecodeError::DataIsEmpty))));
    assert_eq!(r.read_line(), Some(Ok(Err(DecodeError::HexDecode))));
}

#[test]
fn short_data_is_an_eof() {
    let mut r = Reader::new(BytesSource::new(b"0009ab".to_vec()));
    assert_eq!(r.read_line(), Some(Err(ReadError::UnexpectedEof)));
}

#[test]
fn hex_prefix_values() {
    assert_eq!(hex_prefix(b"0000"), Ok(PacketLineOrWantedSize::Line(PacketLine::Flush)));
    assert_eq!(hex_prefix(b"000a"), Ok(PacketLineOrWantedSize::Wanted(6)));
    assert_eq!(hex_prefix(b"00A0"), Ok(PacketLineOrWantedSize::Wanted(156)));
    assert_eq!(hex_prefix(b"fff0"), Ok(PacketLineOrWantedSize::Wanted(65516)));
    assert_eq!(hex_prefix(b"fff1"), Err(DecodeError::InvalidLineLength(0xfff1)));
    assert_eq!(hex_prefix(b"0002"), Err(DecodeError::InvalidLineLength(2)));
    assert_eq!(hex_prefix(b"0004"), Err(DecodeError::DataIsEmpty));
    assert_eq!(hex_prefix(b"00g1"), Err(DecodeError::HexDecode));
}

#[test]
fn byte_helpers() {
    let mut v = Vec::new();
    push_decimal(&mut v, 0);
    v.push(b' ');
    push_decimal(&mut v, 1234567890);
    assert_eq!(v, b"0 1234567890".to_vec());
    let mut w = Vec::new();
    push_be32(&mut w, 0x01020304);
    push_be64(&mut w, 0x1122334455667788);
    assert_eq!(w, vec![1, 2, 3, 4, 0x11, 0x22, 0x33, 0x44, 0x55, 0x66, 0x77, 0x88]);
    assert_eq!(read_be32(&w, 0), 0x01020304);
    assert_eq!(read_be64(&w, 4), 0x1122334455667788);
}
