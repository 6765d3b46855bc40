use git_index_write::fanout::fan_out;
use git_index_write::oid::{entry_crc32, object_id, Header};
use git_index_write::order::{compare_ids, sort_entries, sort_entries_strict, IdOrder, IndexEntry};
use git_index_write::write::{Collector, Entry, Error, File, Kind, Outcome};

fn blob(offset: u64, content: &[u8]) -> Entry {
    let mut bytes = vec![0x30u8 | content.len() as u8];
    bytes.extend_from_slice(content);
    Entry {
        header: Header::Blob,
        header_size: 1,
        pack_offset: offset,
        bytes,
        decompressed: content.to_vec(),
    }
}

fn hex(s: &str) -> Vec<u8> {
    (0..s.len() / 2).map(|i| u8::from_str_radix(&s[2 * i..2 * i + 2], 16).unwrap()).collect()
}

fn be32(b: &[u8], pos: usize) -> u32 {
    u32::from_be_bytes([b[pos], b[pos + 1], b[pos + 2], b[pos + 3]])
}

fn be64(b: &[u8], pos: usize) -> u64 {
    let mut a = [0u8; 8];
    a.copy_from_slice(&b[pos..pos + 8]);
    u64::from_be_bytes(a)
}

fn write(entries: Vec<Entry>) -> (Vec<u8>, Outcome) {
    let mut out = Vec::new();
    let results: Vec<Result<Entry, String>> = entries.into_iter().map(Ok).collect();
    let outcome = File::write_to_stream(results, &mut out, Kind::V2, &[7u8; 20]).unwrap();
    (out, outcome)
}

#[test]
fn empty_blob_identifier() {
    assert_eq!(object_id(Header::Blob, b"").to_vec(), hex("e69de29bb2d1d6434b8b29ae775ad8c2e48c5391"));
}

#[test]
fn blob_identifier_of_one_byte() {
    assert_eq!(object_id(Header::Blob, b"a").to_vec(), hex("2e65efe2a145dda7ee51d1741299f848e5bf752e"));
}

#[test]
fn identifier_depends_on_kind() {
    assert_ne!(object_id(Header::Blob, b"a"), object_id(Header::Tree, b"a"));
    assert_ne!(object_id(Header::Commit, b"a"), object_id(Header::Tag, b"a"));
}

#[test]
fn crc32_check_value() {
    assert_eq!(entry_crc32(b"123456789"), 0xCBF4_3926);
    assert_eq!(entry_crc32(b""), 0);
}

#[test]
fn three_blobs_example() {
    let (bytes, outcome) = write(vec![blob(12, b"a"), blob(30, b"b"), blob(48, b"c")]);
    assert_eq!(outcome.num_objects, 3);
    assert_eq!(outcome.index_kind, Kind::V2);
    let ids: Vec<Vec<u8>> = (0..3).map(|i| bytes[1028 + 20 * i..1048 + 20 * i].to_vec()).collect();
    assert_ne!(ids[0], ids[1]);
    assert_ne!(ids[1], ids[2]);
    assert_ne!(ids[0], ids[2]);
    assert!(ids[0] < ids[1] && ids[1] < ids[2]);
    let lowest = ids[0][0] as usize;
    let highest = ids[2][0] as usize;
    for b in 0..256 {
        let count = be32(&bytes, 4 + 4 * b);
        if b < lowest {
            assert_eq!(count, 0);
        }
        if b >= highest {
            assert_eq!(count, 3);
        }
        let expected = ids.iter().filter(|id| id[0] as usize <= b).count() as u32;
        assert_eq!(count, expected);
    }
}

#[test]
fn layout_and_trailer() {
    let entries = vec![blob(12, b"a"), blob(30, b"b"), blob(48, b"c")];
    let (bytes, outcome) = write(entries.clone());
    let n = 3;
    assert_eq!(bytes.len(), 4 + 1024 + 28 * n + 40);
    assert_eq!(&bytes[0..4], &[0xff, 0x74, 0x4f, 0x63]);
    assert_eq!(&bytes[bytes.len() - 40..bytes.len() - 20], &[7u8; 20]);
    let digest = sha1_smol::Sha1::from(&bytes[..bytes.len() - 20]).digest().bytes();
    assert_eq!(&bytes[bytes.len() - 20..], &digest);
    assert_eq!(outcome.index_hash, digest);
    for e in &entries {
        let id = object_id(e.header, &e.decompressed);
        let i = (0..n).find(|&i| bytes[1028 + 20 * i..1048 + 20 * i] == id).unwrap();
        assert_eq!(be32(&bytes, 1028 + 20 * n + 4 * i), entry_crc32(&e.bytes));
        assert_eq!(be32(&bytes, 1028 + 24 * n + 4 * i) as u64, e.pack_offset);
    }
}

#[test]
fn large_offsets_go_to_their_table() {
    let big = (1u64 << 31) + 5;
    let bigger = 1u64 << 40;
    let entries = vec![blob(big, b"x"), blob(12, b"y"), blob(bigger, b"z")];
    let (bytes, _) = write(entries.clone());
    let n = 3;
    assert_eq!(bytes.len(), 4 + 1024 + 28 * n + 16 + 40);
    let mut seen = 0;
    for e in &entries {
        let id = object_id(e.header, &e.decompressed);
        let i = (0..n).find(|&i| bytes[1028 + 20 * i..1048 + 20 * i] == id).unwrap();
        let word = be32(&bytes, 1028 + 24 * n + 4 * i);
        if e.pack_offset >= 1 << 31 {
            assert!(word & 0x8000_0000 != 0);
            let k = (word & 0x7fff_ffff) as usize;
            assert!(k < 2);
            assert_eq!(be64(&bytes, 1028 + 28 * n + 8 * k), e.pack_offset);
            seen += 1;
        } else {
            assert_eq!(word as u64, e.pack_offset);
        }
    }
    assert_eq!(seen, 2);
}

#[test]
fn writing_twice_gives_the_same_bytes() {
    let entries = vec![blob(12, b"a"), blob(30, b"b"), blob(1 << 33, b"c")];
    let (b1, o1) = write(entries.clone());
    let (b2, o2) = write(entries);
    assert_eq!(b1, b2);
    assert_eq!(o1, o2);
}

#[test]
fn same_content_at_other_offset_is_a_duplicate() {
    let mut out = vec![1u8, 2];
    let results: Vec<Result<Entry, String>> = vec![Ok(blob(12, b"a")), Ok(blob(40, b"a"))];
    match File::write_to_stream(results, &mut out, Kind::V2, &[0u8; 20]) {
        Err(Error::Duplicate(d)) => {
            assert_eq!(d.first.id, d.second.id);
            assert_eq!(d.first.pack_offset, 12);
            assert_eq!(d.second.pack_offset, 40);
            assert_eq!(d.first.order, 0);
            assert_eq!(d.second.order, 1);
        }
        other => panic!("expected a duplicate, got {:?}", other),
    }
    assert_eq!(out, vec![1u8, 2]);
}

#[test]
fn same_content_with_other_stored_bytes_is_a_duplicate() {
    let mut other = blob(12, b"a");
    other.bytes.push(0);
    let results: Vec<Result<Entry, String>> = vec![Ok(blob(12, b"a")), Ok(other)];
    let mut out = Vec::new();
    assert!(matches!(
        File::write_to_stream(results, &mut out, Kind::V2, &[0u8; 20]),
        Err(Error::Duplicate(_))
    ));
}

#[test]
fn identical_entry_added_twice_is_kept_once() {
    let (bytes, outcome) = write(vec![blob(12, b"a"), blob(12, b"a"), blob(30, b"b")]);
    assert_eq!(outcome.num_objects, 2);
    assert_eq!(be32(&bytes, 4 + 4 * 255), 2);
}

#[test]
fn unsupported_kind_fails_before_reading_entries() {
    let mut out = vec![9u8];
    let results: Vec<Result<Entry, String>> = vec![Err("never looked at".to_string())];
    assert_eq!(
        File::write_to_stream(results, &mut out, Kind::V1, &[0u8; 20]),
        Err(Error::Unsupported(Kind::V1))
    );
    assert_eq!(out, vec![9u8]);
    assert!(matches!(Collector::new::<String>(Kind::V1), Err(Error::Unsupported(Kind::V1))));
    assert_eq!(Kind::default(), Kind::V2);
}

#[test]
fn first_source_failure_is_returned() {
    let mut out = Vec::new();
    let results: Vec<Result<Entry, String>> =
        vec![Ok(blob(12, b"a")), Err("first".to_string()), Err("second".to_string())];
    assert_eq!(
        File::write_to_stream(results, &mut out, Kind::V2, &[0u8; 20]),
        Err(Error::Source("first".to_string()))
    );
    assert!(out.is_empty());
}

#[test]
fn empty_input_gives_an_empty_index() {
    let (bytes, outcome) = write(vec![]);
    assert_eq!(outcome.num_objects, 0);
    assert_eq!(bytes.len(), 4 + 1024 + 40);
    assert!(bytes[4..1028].iter().all(|&b| b == 0));
}

#[test]
fn collector_matches_write_to_stream() {
    let mut c = Collector::new::<String>(Kind::V2).unwrap();
    c.add(&blob(30, b"b"));
    c.add(&blob(12, b"a"));
    let (bytes, outcome) = c.finish::<String>(&[7u8; 20]).unwrap();
    let (expected, expected_outcome) = write(vec![blob(30, b"b"), blob(12, b"a")]);
    assert_eq!(bytes, expected);
    assert_eq!(outcome, expected_outcome);
}

fn entry(first: u8, last: u8, offset: u64, order: usize) -> IndexEntry {
    let mut id = [0u8; 20];
    id[0] = first;
    id[19] = last;
    IndexEntry { id, crc32: 1, pack_offset: offset, order }
}

#[test]
fn ids_compare_bytewise_unsigned() {
    assert!(matches!(compare_ids(&entry(1, 0, 0, 0).id, &entry(0xff, 0, 0, 0).id), IdOrder::Less));
    assert!(matches!(compare_ids(&entry(1, 9, 0, 0).id, &entry(1, 2, 0, 0).id), IdOrder::Greater));
    assert!(matches!(compare_ids(&entry(1, 2, 0, 0).id, &entry(1, 2, 5, 3).id), IdOrder::Equal));
}

#[test]
fn sorting_orders_by_identifier() {
    let v = vec![entry(9, 0, 1, 0), entry(2, 5, 2, 1), entry(2, 1, 3, 2), entry(200, 0, 4, 3)];
    let s = sort_entries(v).unwrap();
    let order: Vec<usize> = s.iter().map(|e| e.order).collect();
    assert_eq!(order, vec![2, 1, 0, 3]);
}

#[test]
fn sorting_keeps_identical_entries_once() {
    let v = vec![entry(5, 0, 1, 0), entry(1, 0, 2, 1), entry(5, 0, 1, 2)];
    let s = sort_entries(v).unwrap();
    let order: Vec<usize> = s.iter().map(|e| e.order).collect();
    assert_eq!(order, vec![1, 0]);
}

#[test]
fn sorting_reports_conflicting_entries() {
    let v = vec![entry(5, 0, 1, 0), entry(1, 0, 2, 1), entry(5, 0, 9, 2)];
    let d = sort_entries(v).unwrap_err();
    assert_eq!(d.first.order, 0);
    assert_eq!(d.second.order, 2);
    assert_eq!(d.first.id, d.second.id);
}

#[test]
fn fan_out_counts_leading_bytes() {
    let v = vec![entry(0, 0, 0, 0), entry(2, 0, 0, 1), entry(2, 1, 0, 2), entry(255, 0, 0, 3)];
    let f = fan_out(&v);
    assert_eq!(f.len(), 256);
    assert_eq!(f[0], 1);
    assert_eq!(f[1], 1);
    assert_eq!(f[2], 3);
    assert_eq!(f[254], 3);
    assert_eq!(f[255], 4);
}

#[test]
fn reading_back_what_was_written() {
    let entries = vec![blob(12, b"a"), blob((1 << 31) + 1, b"b"), blob(48, b"c"), blob(1 << 35, b"d")];
    let (bytes, outcome) = write(entries.clone());
    let file = File::from_bytes(bytes).unwrap();
    assert_eq!(file.num_objects(), 4);
    assert_eq!(file.fan_out(255), 4);
    for e in &entries {
        let id = object_id(e.header, &e.decompressed);
        let i = (0..outcome.num_objects).find(|&i| file.oid_at(i) == id.to_vec()).unwrap();
        assert_eq!(file.crc32_at(i), entry_crc32(&e.bytes));
        assert_eq!(file.pack_offset_at(i), Some(e.pack_offset));
    }
}

#[test]
fn reading_rejects_what_is_not_an_index() {
    assert!(File::from_bytes(vec![0u8; 2000]).is_none());
    assert!(File::from_bytes(vec![0xff, 0x74, 0x4f, 0x63]).is_none());
    let (mut bytes, _) = write(vec![blob(12, b"a")]);
    bytes.truncate(1028 + 28 + 39);
    assert!(File::from_bytes(bytes).is_none());
}

#[test]
fn strict_sorting_reports_identical_entries() {
    let v = vec![entry(5, 0, 1, 0), entry(1, 0, 2, 1), entry(5, 0, 1, 2)];
    let d = sort_entries_strict(v).unwrap_err();
    assert_eq!(d.first.id, d.second.id);
    assert_eq!(d.first.order, 0);
    assert_eq!(d.second.order, 2);
}

#[test]
fn strict_sorting_of_distinct_identifiers() {
    let v = vec![entry(9, 0, 1, 0), entry(2, 5, 2, 1), entry(2, 1, 3, 2)];
    let s = sort_entries_strict(v).unwrap();
    let order: Vec<usize> = s.iter().map(|e| e.order).collect();
    assert_eq!(order, vec![2, 1, 0]);
}

#[test]
fn strict_collector_refuses_an_entry_added_twice() {
    let mut c = Collector::new::<String>(Kind::V2).unwrap();
    c.add(&blob(12, b"a"));
    c.add(&blob(12, b"a"));
    assert!(matches!(c.finish_strict::<String>(&[7u8; 20]), Err(Error::Duplicate(_))));
}

#[test]
fn strict_collector_writes_what_finish_writes() {
    let mut c = Collector::new::<String>(Kind::V2).unwrap();
    c.add(&blob(30, b"b"));
    c.add(&blob(12, b"a"));
    let (bytes, outcome) = c.finish_strict::<String>(&[7u8; 20]).unwrap();
    let (expected, expected_outcome) = write(vec![blob(30, b"b"), blob(12, b"a")]);
    assert_eq!(bytes, expected);
    assert_eq!(outcome, expected_outcome);
}
