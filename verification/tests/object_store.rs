use rgit::error::StoreError;
use rgit::object::{
    cat_file_output, fingerprint_hex, frame_blob, get, object_path_parts, parse_framed, put,
    CatFileArgs, Type,
};
use rgit::utils::resolve_path;
use sha1::{Digest, Sha1};
use std::io::Write;

fn hex_string(id: &Vec<u8>) -> String {
    String::from_utf8(fingerprint_hex(id)).unwrap()
}

#[test]
fn frame_layout() {
    let framed = frame_blob(&b"hello".to_vec());
    assert_eq!(framed, b"blob 5\0hello".to_vec());
    let empty = frame_blob(&Vec::new());
    assert_eq!(empty, b"blob 0\0".to_vec());
}

#[test]
fn put_get_roundtrip() {
    let content = b"The quick brown fox jumps over the lazy dog".to_vec();
    let (id, compressed) = put(&content, true);
    assert_eq!(id.len(), 20);
    let compressed = compressed.unwrap();
    let f = get(&compressed).unwrap();
    assert_eq!(f.obj_type, Type::Blob);
    assert_eq!(f.header, b"blob 43\0".to_vec());
    assert_eq!(f.body, content);
}

#[test]
fn put_without_persist_hashes_only() {
    let content = b"dry run".to_vec();
    let (id, compressed) = put(&content, false);
    assert!(compressed.is_none());
    let (id2, _) = put(&content, true);
    assert_eq!(id, id2);
}

#[test]
fn compression_is_real_zlib() {
    let content = b"hello\n".to_vec();
    let (_, compressed) = put(&content, true);
    let compressed = compressed.unwrap();
    // A zlib stream opens with 0x78; the framed bytes themselves do not.
    assert_eq!(compressed[0], 0x78);
    let mut encoder =
        flate2::write::ZlibEncoder::new(Vec::new(), flate2::Compression::default());
    encoder.write_all(b"blob 6\0hello\n").unwrap();
    assert_eq!(compressed, encoder.finish().unwrap());
}

#[test]
fn fingerprint_matches_digest_of_framed_bytes() {
    let content = b"hello\n".to_vec();
    let (id, _) = put(&content, false);
    let expected = Sha1::digest(b"blob 6\0hello\n").to_vec();
    assert_eq!(id, expected);
    assert_eq!(hex_string(&id), "ce013625030ba8dba906f756967f9e9ca394464a");
}

#[test]
fn fingerprint_is_deterministic_and_content_sensitive() {
    let (a1, _) = put(&b"same".to_vec(), false);
    let (a2, _) = put(&b"same".to_vec(), false);
    let (b, _) = put(&b"other".to_vec(), false);
    assert_eq!(a1, a2);
    assert_ne!(a1, b);
}

#[test]
fn end_to_end_hello_scenario() {
    let content = b"hello\n".to_vec();
    let (id, compressed) = put(&content, true);
    assert_eq!(hex_string(&id), "ce013625030ba8dba906f756967f9e9ca394464a");
    let f = get(&compressed.unwrap()).unwrap();
    assert_eq!(f.obj_type, Type::Blob);
    assert_eq!(f.get_size(), 13);
    assert_eq!(f.render().unwrap(), "hello\n");
}

#[test]
fn size_counts_header_and_body() {
    let content = b"hello".to_vec();
    let (_, compressed) = put(&content, true);
    let f = get(&compressed.unwrap()).unwrap();
    // "blob 5\0" is 7 bytes; the reported size is 12, not 5.
    assert_eq!(f.get_size(), 12);
}

#[test]
fn missing_null_separator_is_malformed() {
    let r = parse_framed(&b"blob 5 hello".to_vec());
    assert_eq!(r.unwrap_err(), StoreError::Malformed);
}

#[test]
fn missing_space_is_malformed() {
    let r = parse_framed(&b"blob\0hello".to_vec());
    assert_eq!(r.unwrap_err(), StoreError::Malformed);
}

#[test]
fn unknown_type_token_is_malformed() {
    let r = parse_framed(&b"blobby 5\0hello".to_vec());
    assert_eq!(r.unwrap_err(), StoreError::Malformed);
}

#[test]
fn garbage_compressed_stream_is_malformed() {
    let r = get(&b"this is not a zlib stream".to_vec());
    assert_eq!(r.unwrap_err(), StoreError::Malformed);
}

#[test]
fn tree_and_commit_render_unimplemented() {
    let tree = parse_framed(&b"tree 0\0".to_vec()).unwrap();
    assert_eq!(tree.obj_type, Type::Tree);
    assert_eq!(tree.render().unwrap_err(), StoreError::Unimplemented);
    let commit = parse_framed(&b"commit 0\0".to_vec()).unwrap();
    assert_eq!(commit.obj_type, Type::Commit);
    assert_eq!(commit.render().unwrap_err(), StoreError::Unimplemented);
}

#[test]
fn type_build_recognizes_names() {
    assert_eq!(Type::build("blob").unwrap(), Type::Blob);
    assert_eq!(Type::build("tree").unwrap(), Type::Tree);
    assert_eq!(Type::build("commit").unwrap(), Type::Commit);
    assert_eq!(Type::build("branch").unwrap_err(), StoreError::Malformed);
    assert_eq!(Type::build("Blob").unwrap_err(), StoreError::Malformed);
}

#[test]
fn cat_file_outputs() {
    let f = parse_framed(&b"blob 6\0hello\n".to_vec()).unwrap();
    let mut args = CatFileArgs {
        show_object_type: true,
        show_object_size: false,
        print_object_content: false,
        object: b"ce013625030ba8dba906f756967f9e9ca394464a".to_vec(),
    };
    assert_eq!(cat_file_output(&args, &f).unwrap(), b"blob".to_vec());
    args.show_object_type = false;
    args.show_object_size = true;
    assert_eq!(cat_file_output(&args, &f).unwrap(), b"13".to_vec());
    args.show_object_size = false;
    args.print_object_content = true;
    assert_eq!(cat_file_output(&args, &f).unwrap(), b"hello\n".to_vec());
    args.print_object_content = false;
    assert_eq!(cat_file_output(&args, &f).unwrap(), Vec::<u8>::new());
}

#[test]
fn cat_file_content_of_tree_is_unimplemented() {
    let f = parse_framed(&b"tree 0\0".to_vec()).unwrap();
    let args = CatFileArgs {
        show_object_type: false,
        show_object_size: false,
        print_object_content: true,
        object: Vec::new(),
    };
    assert_eq!(cat_file_output(&args, &f).unwrap_err(), StoreError::Unimplemented);
}

#[test]
fn render_replaces_invalid_sequences() {
    let f = parse_framed(&b"blob 3\0a\xffb".to_vec()).unwrap();
    assert_eq!(f.render().unwrap(), "a\u{FFFD}b");
}

#[test]
fn object_path_derivation() {
    let hex = b"ce013625030ba8dba906f756967f9e9ca394464a".to_vec();
    let (subdir, filename) = object_path_parts(&hex);
    assert_eq!(subdir, b"ce".to_vec());
    assert_eq!(filename, b"013625030ba8dba906f756967f9e9ca394464a".to_vec());
    let root = b".rgit".to_vec();
    let parts = vec![b"objects".to_vec(), subdir, filename];
    let path = resolve_path(&root, &parts);
    assert_eq!(
        path,
        b".rgit/objects/ce/013625030ba8dba906f756967f9e9ca394464a".to_vec()
    );
}

#[test]
fn error_messages() {
    assert_eq!(StoreError::NotFound.message(), "object not found");
    assert_eq!(StoreError::Malformed.message(), "malformed data");
    assert_eq!(StoreError::ChecksumMismatch.message(), "index checksum mismatch");
    assert_eq!(StoreError::Truncated.message(), "truncated data");
    assert_eq!(StoreError::Unimplemented.message(), "unimplemented object type");
}
