//! The object codec and store logic: type-tagged framing, fingerprinting,
//! compression, frame parsing, and the derived views a fetched object
//! offers (type, size, rendered content).

use vstd::prelude::*;
use vstd::string::StringSliceAdditionalSpecFns;
use crate::bytes::{find_byte, find_byte_in, lemma_find_byte, lemma_dec_of_digits, dec_of,
    push_dec, push_all, subvec, slice_eq};
use crate::digest::{sha1_of, sha1_digest, hex_of, to_hex, CHECKSUM_LEN};
use crate::error::StoreError;
use crate::zlib::{zlib_of, zlib_compress, zlib_decompress};

verus! {

/// The closed set of object types the store recognizes.
#[derive(Clone, Copy, Debug, PartialEq, Eq, Structural)]
pub enum Type {
    Blob,
    Tree,
    Commit,
}

/// The canonical lowercase name of an object type, as ASCII bytes.
pub open spec fn type_name_bytes(t: Type) -> Seq<u8> {
    match t {
        Type::Blob => seq![98u8, 108u8, 111u8, 98u8],
        Type::Tree => seq![116u8, 114u8, 101u8, 101u8],
        Type::Commit => seq![99u8, 111u8, 109u8, 109u8, 105u8, 116u8],
    }
}

/// The object type a header's type token denotes, if any.
pub open spec fn token_type(token: Seq<u8>) -> Option<Type> {
    if token == type_name_bytes(Type::Blob) {
        Some(Type::Blob)
    } else if token == type_name_bytes(Type::Tree) {
        Some(Type::Tree)
    } else if token == type_name_bytes(Type::Commit) {
        Some(Type::Commit)
    } else {
        None
    }
}

impl Type {
    /// The type's canonical name as bytes.
    pub fn name_bytes(&self) -> (r: Vec<u8>)
        ensures
            r@ == type_name_bytes(*self),
    {
        let mut r: Vec<u8> = Vec::new();
        match self {
            Type::Blob => {
                r.push(98);
                r.push(108);
                r.push(111);
                r.push(98);
            },
            Type::Tree => {
                r.push(116);
                r.push(114);
                r.push(101);
                r.push(101);
            },
            Type::Commit => {
                r.push(99);
                r.push(111);
                r.push(109);
                r.push(109);
                r.push(105);
                r.push(116);
            },
        }
        proof {
            assert(r@ =~= type_name_bytes(*self));
        }
        r
    }

    /// Recognizes a type token taken from an object header.
    pub fn from_token(token: &Vec<u8>) -> (r: Result<Type, StoreError>)
        ensures
            r == match token_type(token@) {
                Some(t) => Ok::<Type, StoreError>(t),
                None => Err::<Type, StoreError>(StoreError::Malformed),
            },
    {
        let blob = Type::Blob.name_bytes();
        let tree = Type::Tree.name_bytes();
        let commit = Type::Commit.name_bytes();
        if slice_eq(token.as_slice(), blob.as_slice()) {
            Ok(Type::Blob)
        } else if slice_eq(token.as_slice(), tree.as_slice()) {
            Ok(Type::Tree)
        } else if slice_eq(token.as_slice(), commit.as_slice()) {
            Ok(Type::Commit)
        } else {
            Err(StoreError::Malformed)
        }
    }

    /// Builds a type from its textual name.
    pub fn build(s: &str) -> (r: Result<Type, StoreError>)
        ensures
            r == match token_type(s.spec_bytes()) {
                Some(t) => Ok::<Type, StoreError>(t),
                None => Err::<Type, StoreError>(StoreError::Malformed),
            },
    {
        let bytes = vstd::slice::slice_to_vec(s.as_bytes());
        Type::from_token(&bytes)
    }
}

/// The textual header a framed object carries: name, space, decimal content
/// length, and a null separator.
pub open spec fn frame_header(t: Type, content_len: nat) -> Seq<u8> {
    type_name_bytes(t) + seq![32u8] + dec_of(content_len) + seq![0u8]
}

/// The header of a blob holding `content`.
pub open spec fn blob_header(content: Seq<u8>) -> Seq<u8> {
    frame_header(Type::Blob, content.len())
}

/// The framed form of a blob: header followed by the raw content.
pub open spec fn blob_frame(content: Seq<u8>) -> Seq<u8> {
    blob_header(content) + content
}

/// Splitting framed bytes: the header runs through the first null byte, the
/// body is everything after it, and the type token is the part of the header
/// before the first space.  Bytes with no null separator, or no space in the
/// header, or an unknown type token, are malformed.
pub open spec fn parse_frame(bytes: Seq<u8>) -> Result<(Type, Seq<u8>, Seq<u8>), StoreError> {
    match find_byte(bytes, 0) {
        None => Err(StoreError::Malformed),
        Some(nul) => match find_byte(bytes.subrange(0, nul), 32) {
            None => Err(StoreError::Malformed),
            Some(sp) => match token_type(bytes.subrange(0, sp)) {
                None => Err(StoreError::Malformed),
                Some(t) => Ok((t, bytes.subrange(0, nul + 1), bytes.subrange(nul + 1, bytes.len() as int))),
            },
        },
    }
}

/// A fetched object, split into its header (including the null separator)
/// and its raw content bytes.
#[derive(Debug)]
pub struct FramedObject {
    pub obj_type: Type,
    pub header: Vec<u8>,
    pub body: Vec<u8>,
}

/// Splits decompressed object bytes at the first null byte and recognizes
/// the type token before the first space of the header.
pub fn parse_framed(bytes: &Vec<u8>) -> (r: Result<FramedObject, StoreError>)
    ensures
        match r {
            Ok(f) => parse_frame(bytes@) == Ok::<(Type, Seq<u8>, Seq<u8>), StoreError>(
                (f.obj_type, f.header@, f.body@),
            ),
            Err(e) => parse_frame(bytes@) == Err::<(Type, Seq<u8>, Seq<u8>), StoreError>(e),
        },
{
    proof {
        lemma_find_byte(bytes@, 0);
    }
    let nul = match find_byte_in(bytes, 0, bytes.len(), 0) {
        None => {
            return Err(StoreError::Malformed);
        },
        Some(i) => i,
    };
    let ghost head = bytes@.subrange(0, nul as int);
    proof {
        lemma_find_byte(head, 32);
        assert(forall|j: int| 0 <= j < head.len() ==> head[j] == bytes@[j]);
    }
    let sp = match find_byte_in(bytes, 0, nul, 32) {
        None => {
            return Err(StoreError::Malformed);
        },
        Some(i) => i,
    };
    proof {
        assert(find_byte(bytes@, 0) == Some(nul as int));
        assert(head[sp as int] == 32);
        assert(forall|j: int| 0 <= j < sp ==> #[trigger] head[j] != 32);
        assert(find_byte(head, 32) == Some(sp as int));
    }
    let token = subvec(bytes, 0, sp);
    let header = subvec(bytes, 0, nul + 1);
    let body = subvec(bytes, nul + 1, bytes.len());
    match Type::from_token(&token) {
        Err(e) => Err(e),
        Ok(t) => Ok(FramedObject { obj_type: t, header, body }),
    }
}

/// The text a byte sequence decodes to, with invalid sequences replaced.
/// The value is determined by the input bytes alone.
pub uninterp spec fn lossy_utf8_of(bytes: Seq<u8>) -> Seq<char>;

/// Relies on std's `String::from_utf8_lossy`: the decoded text, invalid
/// sequences replaced, is a pure function of the input bytes.
#[verifier::external_body]
fn utf8_lossy(b: &Vec<u8>) -> (r: String)
    ensures
        r@ == lossy_utf8_of(b@),
{
    String::from_utf8_lossy(b.as_slice()).into_owned()
}

impl FramedObject {
    /// The size the store reports for an object: the whole framed length,
    /// header and body together, not the raw content length alone.
    pub fn get_size(&self) -> (r: usize)
        requires
            self.header@.len() + self.body@.len() <= usize::MAX,
        ensures
            r == self.header@.len() + self.body@.len(),
    {
        self.header.len() + self.body.len()
    }

    /// Renders the object's content as text.  Only a blob has defined
    /// rendering; tree and commit content is recognized but unsupported,
    /// which is distinct from malformed data.
    pub fn render(&self) -> (r: Result<String, StoreError>)
        ensures
            self.obj_type is Blob ==> (r matches Ok(s) && s@ == lossy_utf8_of(self.body@)),
            !(self.obj_type is Blob) ==> r == Err::<String, StoreError>(StoreError::Unimplemented),
    {
        match self.obj_type {
            Type::Blob => Ok(utf8_lossy(&self.body)),
            _ => Err(StoreError::Unimplemented),
        }
    }
}

/// The flags and object argument of a cat-style object query.  The flags
/// select what to show; `object` is the fingerprint's hexadecimal form as
/// given on the command line.
pub struct CatFileArgs {
    pub show_object_type: bool,
    pub show_object_size: bool,
    pub print_object_content: bool,
    pub object: Vec<u8>,
}

/// What a cat-style query prints for a fetched object: the type name, the
/// framed byte length (header and body together) in decimal, or a blob's
/// rendered content as that text's bytes.  With no flag set nothing is
/// printed.
pub fn cat_file_output(args: &CatFileArgs, f: &FramedObject) -> (r: Result<Vec<u8>, StoreError>)
    requires
        f.header@.len() + f.body@.len() <= usize::MAX,
    ensures
        if args.show_object_type {
            r matches Ok(o) && o@ == type_name_bytes(f.obj_type)
        } else if args.show_object_size {
            r matches Ok(o) && o@ == dec_of((f.header@.len() + f.body@.len()) as nat)
        } else if args.print_object_content {
            if f.obj_type is Blob {
                r matches Ok(o) && o@ == vstd::utf8::encode_utf8(lossy_utf8_of(f.body@))
            } else {
                r == Err::<Vec<u8>, StoreError>(StoreError::Unimplemented)
            }
        } else {
            r matches Ok(o) && o@ == Seq::<u8>::empty()
        },
{
    if args.show_object_type {
        Ok(f.obj_type.name_bytes())
    } else if args.show_object_size {
        let size = f.get_size();
        let mut out: Vec<u8> = Vec::new();
        push_dec(&mut out, size as u64);
        proof {
            assert(out@ =~= dec_of((f.header@.len() + f.body@.len()) as nat));
        }
        Ok(out)
    } else if args.print_object_content {
        match f.render() {
            Err(e) => Err(e),
            Ok(s) => Ok(vstd::slice::slice_to_vec(s.as_str().as_bytes())),
        }
    } else {
        Ok(Vec::new())
    }
}

/// Frames raw content as a blob.
pub fn frame_blob(content: &Vec<u8>) -> (r: Vec<u8>)
    ensures
        r@ == blob_frame(content@),
{
    let mut buf: Vec<u8> = Vec::new();
    buf.push(98);
    buf.push(108);
    buf.push(111);
    buf.push(98);
    buf.push(32);
    push_dec(&mut buf, content.len() as u64);
    buf.push(0);
    push_all(&mut buf, content);
    proof {
        assert(buf@ =~= blob_frame(content@));
    }
    buf
}

/// Frames `content` as a blob and fingerprints the framed bytes.  When
/// `persist` is set, also returns the compressed frame for the caller to
/// write at the fingerprint's derived path; without it this is a dry-run
/// hash and nothing is meant to be written.
pub fn put(content: &Vec<u8>, persist: bool) -> (r: (Vec<u8>, Option<Vec<u8>>))
    ensures
        r.0@ == sha1_of(blob_frame(content@)),
        r.0@.len() == CHECKSUM_LEN,
        persist ==> (r.1 matches Some(c) && c@ == zlib_of(blob_frame(content@))),
        !persist ==> r.1 is None,
{
    let framed = frame_blob(content);
    let id = sha1_digest(&framed);
    let compressed = if persist {
        Some(zlib_compress(&framed))
    } else {
        None
    };
    (id, compressed)
}

/// Decompresses stored object bytes and splits the frame.  Whatever stream
/// the compressor produced decodes back to the framed bytes, so fetching a
/// stored object recovers exactly what was framed.
pub fn get(compressed: &Vec<u8>) -> (r: Result<FramedObject, StoreError>)
    ensures
        forall|s: Seq<u8>| compressed@ == #[trigger] zlib_of(s) ==> match parse_frame(s) {
            Ok(parts) => r matches Ok(f) && f.obj_type == parts.0 && f.header@ == parts.1
                && f.body@ == parts.2,
            Err(e) => r == Err::<FramedObject, StoreError>(e),
        },
        r matches Err(e) ==> e == StoreError::Malformed,
{
    match zlib_decompress(compressed) {
        Err(e) => Err(e),
        Ok(d) => parse_framed(&d),
    }
}

/// Splits a fingerprint's hexadecimal form into the subdirectory name (the
/// first two characters) and the object file name (the rest).
pub fn object_path_parts(hex: &Vec<u8>) -> (r: (Vec<u8>, Vec<u8>))
    requires
        hex@.len() >= 2,
    ensures
        r.0@ == hex@.subrange(0, 2),
        r.1@ == hex@.subrange(2, hex@.len() as int),
{
    (subvec(hex, 0, 2), subvec(hex, 2, hex.len()))
}

/// Renders a fingerprint in lowercase hexadecimal.
pub fn fingerprint_hex(id: &Vec<u8>) -> (r: Vec<u8>)
    ensures
        r@ == hex_of(id@),
{
    to_hex(id)
}

/// Bytes holding no null separator at all are rejected as malformed,
/// never split into header and body.
pub proof fn lemma_no_null_is_malformed(bytes: Seq<u8>)
    requires
        forall|i: int| 0 <= i < bytes.len() ==> bytes[i] != 0,
    ensures
        parse_frame(bytes) == Err::<(Type, Seq<u8>, Seq<u8>), StoreError>(StoreError::Malformed),
{
    lemma_find_byte(bytes, 0);
    match find_byte(bytes, 0) {
        Some(i) => {
            assert(bytes[i] == 0);
        },
        None => {},
    }
}

/// Framing then splitting recovers a blob exactly: the parsed header is the
/// blob header, the parsed body is the original content, and the framed
/// length is the header length plus the content length.
pub proof fn lemma_blob_frame_roundtrip(content: Seq<u8>)
    ensures
        parse_frame(blob_frame(content)) == Ok::<(Type, Seq<u8>, Seq<u8>), StoreError>(
            (Type::Blob, blob_header(content), content),
        ),
        blob_frame(content).len() == blob_header(content).len() + content.len(),
{
    let f = blob_frame(content);
    let d = dec_of(content.len());
    let hlen = blob_header(content).len() as int;
    lemma_dec_of_digits(content.len());
    assert(f[hlen - 1] == 0);
    assert forall|j: int| 0 <= j < hlen - 1 implies f[j] != 0 by {
        if j < 4 {
            assert(f[j] == type_name_bytes(Type::Blob)[j]);
        } else if j == 4 {
            assert(f[j] == 32);
        } else {
            assert(f[j] == d[j - 5]);
            assert(48 <= d[j - 5] <= 57);
        }
    }
    lemma_find_byte(f, 0);
    assert(find_byte(f, 0) == Some(hlen - 1));
    let head = f.subrange(0, hlen - 1);
    assert forall|j: int| 0 <= j < head.len() implies head[j] == f[j] by {}
    assert(head[4] == 32);
    assert forall|j: int| 0 <= j < 4 implies head[j] != 32 by {
        assert(head[j] == type_name_bytes(Type::Blob)[j]);
    }
    lemma_find_byte(head, 32);
    assert(find_byte(head, 32) == Some(4int));
    assert(f.subrange(0, 4) =~= type_name_bytes(Type::Blob));
    assert(token_type(f.subrange(0, 4)) == Some(Type::Blob));
    assert(f.subrange(0, hlen) =~= blob_header(content));
    assert(f.subrange(hlen, f.len() as int) =~= content);
}

} // verus!
