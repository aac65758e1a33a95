use rgit::error::StoreError;
use rgit::index::{Entry, Index, DEFAULT_VERSION};
use sha1::{Digest, Sha1};

fn sample_entry(path: &[u8], mtime: i64) -> Entry {
    Entry::new(
        1700000000,
        mtime,
        2049,
        131072,
        0o100644,
        1000,
        1000,
        6,
        &b"hello\n".to_vec(),
        path.to_vec(),
    )
}

fn index_with(paths: &[&[u8]]) -> Index {
    let mut index = Index::empty();
    for p in paths {
        index.add(sample_entry(p, 1700000001));
    }
    index
}

#[test]
fn empty_index_has_default_version() {
    let index = Index::empty();
    assert_eq!(index.version, DEFAULT_VERSION);
    assert!(index.entries.is_empty());
}

#[test]
fn empty_index_roundtrip() {
    let index = Index::empty();
    let bytes = index.serialize();
    // Signature, version, count, and a trailing 20-byte checksum.
    assert_eq!(bytes.len(), 32);
    assert_eq!(&bytes[0..4], b"DIRC");
    let parsed = Index::parse(bytes).unwrap();
    assert_eq!(parsed.version, DEFAULT_VERSION);
    assert!(parsed.entries.is_empty());
}

#[test]
fn entry_fingerprint_digests_raw_content() {
    let e = sample_entry(b"a.txt", 1700000001);
    // The record fingerprint digests the unframed content, unlike the
    // object store's fingerprint of the framed bytes.
    assert_eq!(e.object_id, Sha1::digest(b"hello\n").to_vec());
    assert_eq!(e.file_path, b"a.txt".to_vec());
}

#[test]
fn index_roundtrip_preserves_entries() {
    let index = index_with(&[b"src/main.rs", b"README.md", b"a"]);
    let bytes = index.serialize();
    let parsed = Index::parse(bytes).unwrap();
    assert_eq!(parsed.version, index.version);
    assert_eq!(parsed.entries.len(), index.entries.len());
    for (a, b) in index.entries.iter().zip(parsed.entries.iter()) {
        assert_eq!(a.ctime, b.ctime);
        assert_eq!(a.mtime, b.mtime);
        assert_eq!(a.dev, b.dev);
        assert_eq!(a.ino, b.ino);
        assert_eq!(a.mode, b.mode);
        assert_eq!(a.uid, b.uid);
        assert_eq!(a.gid, b.gid);
        assert_eq!(a.size, b.size);
        assert_eq!(a.object_id, b.object_id);
        assert_eq!(a.file_path, b.file_path);
    }
}

#[test]
fn negative_timestamps_roundtrip() {
    let mut index = Index::empty();
    index.add(Entry::new(-1, -62135596800, 0, 0, 0, 0, 0, 0, &Vec::new(), b"old".to_vec()));
    let parsed = Index::parse(index.serialize()).unwrap();
    assert_eq!(parsed.entries[0].ctime, -1);
    assert_eq!(parsed.entries[0].mtime, -62135596800);
}

#[test]
fn long_path_roundtrip() {
    // A path at least 0xFFF bytes long is capped in the flags field and
    // recovered by scanning to the terminator.
    let long = vec![b'a'; 5000];
    let mut index = Index::empty();
    index.add(Entry::new(1, 2, 3, 4, 5, 6, 7, 8, &Vec::new(), long.clone()));
    let parsed = Index::parse(index.serialize()).unwrap();
    assert_eq!(parsed.entries[0].file_path, long);
}

#[test]
fn flipping_any_body_byte_is_rejected() {
    let index = index_with(&[b"a.txt"]);
    let bytes = index.serialize();
    assert!(Index::parse(bytes.clone()).is_ok());
    for i in 0..bytes.len() - 20 {
        let mut corrupt = bytes.clone();
        corrupt[i] ^= 0x40;
        let r = Index::parse(corrupt);
        assert_eq!(r.unwrap_err(), StoreError::ChecksumMismatch, "byte {}", i);
    }
}

#[test]
fn flipped_checksum_byte_is_rejected() {
    let index = index_with(&[b"a.txt"]);
    let mut bytes = index.serialize();
    let last = bytes.len() - 1;
    bytes[last] ^= 0x01;
    assert_eq!(Index::parse(bytes).unwrap_err(), StoreError::ChecksumMismatch);
}

#[test]
fn too_short_buffer_is_a_checksum_mismatch() {
    assert_eq!(
        Index::parse(vec![0u8; 19]).unwrap_err(),
        StoreError::ChecksumMismatch
    );
    assert_eq!(Index::parse(Vec::new()).unwrap_err(), StoreError::ChecksumMismatch);
}

#[test]
fn valid_checksum_but_missing_records_is_truncated() {
    // A body that declares one record and holds none, with a correct
    // trailing digest.
    let mut body = Vec::new();
    body.extend_from_slice(b"DIRC");
    body.extend_from_slice(&2u32.to_be_bytes());
    body.extend_from_slice(&1u32.to_be_bytes());
    let digest = Sha1::digest(&body);
    let mut bytes = body;
    bytes.extend_from_slice(&digest);
    assert_eq!(Index::parse(bytes).unwrap_err(), StoreError::Truncated);
}

#[test]
fn valid_checksum_but_short_header_is_truncated() {
    let body = b"DIRC".to_vec();
    let digest = Sha1::digest(&body);
    let mut bytes = body;
    bytes.extend_from_slice(&digest);
    assert_eq!(Index::parse(bytes).unwrap_err(), StoreError::Truncated);
}

#[test]
fn records_align_to_eight_bytes() {
    // Padding keeps the cumulative stream aligned, starting after the
    // 12-byte header, whatever each record's path length is.
    let mut buf = vec![0u8; 12];
    for (i, path) in [&b"a"[..], &b"ab"[..], &b"abcdefg"[..], &b"abcdefgh"[..]]
        .iter()
        .enumerate()
    {
        sample_entry(path, i as i64).serialize(&mut buf);
        assert_eq!(buf.len() % 8, 0, "after record {}", i);
    }
}

#[test]
fn entry_parse_reads_back_one_record() {
    let e = sample_entry(b"src/lib.rs", 1700000002);
    let mut buf = vec![0u8; 12];
    e.serialize(&mut buf);
    let (parsed, next) = Entry::parse(&buf, 12).unwrap();
    assert_eq!(next, buf.len());
    assert_eq!(parsed.file_path, e.file_path);
    assert_eq!(parsed.object_id, e.object_id);
    assert_eq!(parsed.mtime, e.mtime);
}

#[test]
fn entry_parse_of_short_buffer_is_truncated() {
    let e = sample_entry(b"x", 0);
    let mut buf = vec![0u8; 12];
    e.serialize(&mut buf);
    buf.truncate(buf.len() - 1);
    assert_eq!(Entry::parse(&buf, 12).unwrap_err(), StoreError::Truncated);
    assert_eq!(Entry::parse(&vec![0u8; 40], 12).unwrap_err(), StoreError::Truncated);
}

#[test]
fn add_keeps_paths_sorted() {
    let index = index_with(&[b"b", b"a", b"c"]);
    let paths: Vec<&[u8]> = index.entries.iter().map(|e| e.file_path.as_slice()).collect();
    assert_eq!(paths, vec![&b"a"[..], &b"b"[..], &b"c"[..]]);
}

#[test]
fn adding_same_path_twice_keeps_one_entry() {
    let mut index = Index::empty();
    index.add(sample_entry(b"a.txt", 1));
    index.add(sample_entry(b"a.txt", 2));
    assert_eq!(index.entries.len(), 1);
    // Re-staging replaces the record: the newer metadata wins.
    assert_eq!(index.entries[0].mtime, 2);
}

#[test]
fn removing_absent_path_is_a_noop() {
    let mut index = index_with(&[b"a", b"b"]);
    index.remove(&b"zzz".to_vec());
    assert_eq!(index.entries.len(), 2);
    index.remove(&b"a".to_vec());
    assert_eq!(index.entries.len(), 1);
    assert_eq!(index.entries[0].file_path, b"b".to_vec());
}

#[test]
fn update_entries_applies_flags() {
    let mut index = index_with(&[b"a", b"b"]);
    let fresh = vec![sample_entry(b"b", 9), sample_entry(b"c", 9)];
    index.update_entries(fresh, true, false);
    assert_eq!(index.entries.len(), 3);
    assert_eq!(index.entries[1].mtime, 9);

    let mut index2 = index_with(&[b"a", b"b"]);
    let stale = vec![sample_entry(b"a", 9)];
    index2.update_entries(stale, false, true);
    assert_eq!(index2.entries.len(), 1);
    assert_eq!(index2.entries[0].file_path, b"b".to_vec());
}
