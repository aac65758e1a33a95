//! The staging index: a packed binary record per staged file, an ordered
//! entry collection with a header and a trailing whole-file checksum, and
//! path-keyed add/remove semantics.
//!
//! All multi-byte integers are big-endian.  One record holds, in order:
//! ctime (8 bytes, signed), mtime (8, signed), dev (8), ino (8), mode (4),
//! uid (4), gid (4), size (8), fingerprint (20), flags (2, low 12 bits the
//! path byte-length capped at 0xFFF), the raw path bytes, a zero
//! terminator, and zero padding chosen so the cumulative serialized stream
//! stays 8-byte aligned — the padding is relative to the position in the
//! whole buffer, not to the record alone.

use vstd::prelude::*;
use crate::bytes::{be_bytes, be_val, lemma_be_bytes_len, lemma_be_val_of_be_bytes,
    lemma_be_val_bound, lemma_pow256_small, push_be, read_be, push_all, subvec, slice_eq,
    find_byte, find_byte_in, lemma_find_byte};
use crate::digest::{sha1_of, sha1_digest, CHECKSUM_LEN};
use crate::error::StoreError;

verus! {

/// The format version a fresh index is written with.
pub const DEFAULT_VERSION: u32 = 2;

/// The number of bytes of a record's fixed-width fields, flags included.
pub const ENTRY_FIXED_LEN: usize = 74;

/// The two's-complement image of a signed value in an unsigned 8-byte field.
pub open spec fn u64_repr(x: int) -> nat {
    if x >= 0 {
        x as nat
    } else {
        (x + 0x10000000000000000) as nat
    }
}

/// The signed value an unsigned 8-byte field denotes.
pub open spec fn i64_val(u: nat) -> int {
    if u < 0x8000000000000000 {
        u as int
    } else {
        u - 0x10000000000000000
    }
}

/// The value of a record's flags field: the path byte-length, capped.
pub open spec fn flags_val(path_len: nat) -> nat {
    if path_len < 0xFFF {
        path_len
    } else {
        0xFFF
    }
}

/// The number of zero bytes that brings a stream at `pos` to an 8-byte
/// boundary.
pub open spec fn pad_len(pos: nat) -> nat {
    (((8 - (pos % 8)) % 8)) as nat
}

/// `n` zero bytes.
pub open spec fn zeros(n: nat) -> Seq<u8> {
    Seq::new(n, |i: int| 0u8)
}

/// The mathematical model of one staged-file record.
#[verifier::ext_equal]
pub ghost struct EntryView {
    pub ctime: int,
    pub mtime: int,
    pub dev: nat,
    pub ino: nat,
    pub mode: nat,
    pub uid: nat,
    pub gid: nat,
    pub size: nat,
    pub object_id: Seq<u8>,
    pub file_path: Seq<u8>,
}

impl EntryView {
    /// The field ranges the record format can hold, and the fixed
    /// fingerprint width.
    pub open spec fn wf(self) -> bool {
        &&& -0x8000000000000000 <= self.ctime < 0x8000000000000000
        &&& -0x8000000000000000 <= self.mtime < 0x8000000000000000
        &&& self.dev < 0x10000000000000000
        &&& self.ino < 0x10000000000000000
        &&& self.mode < 0x100000000
        &&& self.uid < 0x100000000
        &&& self.gid < 0x100000000
        &&& self.size < 0x10000000000000000
        &&& self.object_id.len() == CHECKSUM_LEN
    }
}

/// One staged-file descriptor: timestamps, device and inode, permission
/// bits, owner ids, size, the content fingerprint, and the relative path.
#[derive(Debug)]
pub struct Entry {
    pub ctime: i64,
    pub mtime: i64,
    pub dev: u64,
    pub ino: u64,
    pub mode: u32,
    pub uid: u32,
    pub gid: u32,
    pub size: u64,
    pub object_id: Vec<u8>,
    pub file_path: Vec<u8>,
}

impl View for Entry {
    type V = EntryView;

    open spec fn view(&self) -> EntryView {
        EntryView {
            ctime: self.ctime as int,
            mtime: self.mtime as int,
            dev: self.dev as nat,
            ino: self.ino as nat,
            mode: self.mode as nat,
            uid: self.uid as nat,
            gid: self.gid as nat,
            size: self.size as nat,
            object_id: self.object_id@,
            file_path: self.file_path@,
        }
    }
}

/// A record's fixed-width fields in encoded order, fingerprint and flags
/// included.
pub open spec fn entry_fixed_bytes(e: EntryView) -> Seq<u8> {
    be_bytes(u64_repr(e.ctime), 8) + be_bytes(u64_repr(e.mtime), 8) + be_bytes(e.dev, 8)
        + be_bytes(e.ino, 8) + be_bytes(e.mode, 4) + be_bytes(e.uid, 4) + be_bytes(e.gid, 4)
        + be_bytes(e.size, 8) + e.object_id + be_bytes(flags_val(e.file_path.len()), 2)
}

/// A record before padding: fixed fields, path bytes, zero terminator.
pub open spec fn entry_unpadded_bytes(e: EntryView) -> Seq<u8> {
    entry_fixed_bytes(e) + e.file_path + seq![0u8]
}

/// A record as serialized when it begins at stream position `start`: the
/// unpadded record plus the zero padding that realigns the stream.
pub open spec fn entry_bytes(e: EntryView, start: nat) -> Seq<u8> {
    entry_unpadded_bytes(e) + zeros(pad_len(start + entry_unpadded_bytes(e).len()))
}

pub proof fn lemma_entry_fixed_len(e: EntryView)
    requires
        e.object_id.len() == CHECKSUM_LEN,
    ensures
        entry_fixed_bytes(e).len() == ENTRY_FIXED_LEN,
{
    lemma_be_bytes_len(u64_repr(e.ctime), 8);
    lemma_be_bytes_len(u64_repr(e.mtime), 8);
    lemma_be_bytes_len(e.dev, 8);
    lemma_be_bytes_len(e.ino, 8);
    lemma_be_bytes_len(e.mode, 4);
    lemma_be_bytes_len(e.uid, 4);
    lemma_be_bytes_len(e.gid, 4);
    lemma_be_bytes_len(e.size, 8);
    lemma_be_bytes_len(flags_val(e.file_path.len()), 2);
}

/// After a serialized record the cumulative stream length is a multiple
/// of 8, wherever in the stream the record began.
pub proof fn lemma_record_alignment(e: EntryView, start: nat)
    ensures
        (start + entry_bytes(e, start).len()) % 8 == 0,
{
    let u = entry_unpadded_bytes(e).len();
    let p = pad_len(start + u);
    assert(entry_bytes(e, start).len() == u + p);
    assert((start + u + p) % 8 == 0) by (nonlinear_arith)
        requires
            p == ((8 - ((start + u) % 8)) % 8),
    ;
}

fn u64_repr_of(x: i64) -> (r: u64)
    ensures
        r as nat == u64_repr(x as int),
{
    if x >= 0 {
        x as u64
    } else {
        let w: i128 = x as i128 + 0x10000000000000000;
        w as u64
    }
}

fn i64_val_of(u: u64) -> (r: i64)
    ensures
        r as int == i64_val(u as nat),
{
    if u < 0x8000000000000000 {
        u as i64
    } else {
        let w: i128 = u as i128 - 0x10000000000000000;
        w as i64
    }
}

impl Entry {
    /// Builds a record from live file metadata and raw content.  The
    /// record's fingerprint digests the raw content, unframed — deliberately
    /// distinct from the object store's fingerprint of the framed object.
    pub fn new(
        ctime: i64,
        mtime: i64,
        dev: u64,
        ino: u64,
        mode: u32,
        uid: u32,
        gid: u32,
        size: u64,
        content: &Vec<u8>,
        file_path: Vec<u8>,
    ) -> (r: Entry)
        ensures
            r@ == (EntryView {
                ctime: ctime as int,
                mtime: mtime as int,
                dev: dev as nat,
                ino: ino as nat,
                mode: mode as nat,
                uid: uid as nat,
                gid: gid as nat,
                size: size as nat,
                object_id: sha1_of(content@),
                file_path: file_path@,
            }),
            r@.wf(),
    {
        let object_id = sha1_digest(content);
        Entry { ctime, mtime, dev, ino, mode, uid, gid, size, object_id, file_path }
    }

    /// Appends the record's serialized bytes to `buf`, padded relative to
    /// the buffer position so the whole stream stays 8-byte aligned.
    pub fn serialize(&self, buf: &mut Vec<u8>)
        requires
            self@.wf(),
        ensures
            final(buf)@ == old(buf)@ + entry_bytes(self@, old(buf)@.len() as nat),
    {
        push_be(buf, u64_repr_of(self.ctime), 8);
        push_be(buf, u64_repr_of(self.mtime), 8);
        push_be(buf, self.dev, 8);
        push_be(buf, self.ino, 8);
        push_be(buf, self.mode as u64, 4);
        push_be(buf, self.uid as u64, 4);
        push_be(buf, self.gid as u64, 4);
        push_be(buf, self.size, 8);
        push_all(buf, &self.object_id);
        let plen = self.file_path.len();
        let flags: u64 = if plen < 0xFFF {
            plen as u64
        } else {
            0xFFF
        };
        push_be(buf, flags, 2);
        push_all(buf, &self.file_path);
        buf.push(0);
        proof {
            assert(buf@ =~= old(buf)@ + entry_unpadded_bytes(self@));
        }
        let pad = (8 - (buf.len() % 8)) % 8;
        proof {
            assert(pad == pad_len(old(buf)@.len() + entry_unpadded_bytes(self@).len()));
        }
        let mut k: usize = 0;
        while k < pad
            invariant
                k <= pad,
                buf@ == old(buf)@ + entry_unpadded_bytes(self@) + zeros(k as nat),
            decreases pad - k,
        {
            buf.push(0);
            proof {
                assert(buf@ =~= old(buf)@ + entry_unpadded_bytes(self@) + zeros((k + 1) as nat));
            }
            k = k + 1;
        }
        proof {
            assert(buf@ =~= old(buf)@ + entry_bytes(self@, old(buf)@.len() as nat));
        }
    }
}

/// The fields a record's fixed part denotes at offset `off` of `b`, with
/// the given decoded path.
pub open spec fn entry_view_of(b: Seq<u8>, off: nat, path: Seq<u8>) -> EntryView {
    let o = off as int;
    EntryView {
        ctime: i64_val(be_val(b.subrange(o, o + 8))),
        mtime: i64_val(be_val(b.subrange(o + 8, o + 16))),
        dev: be_val(b.subrange(o + 16, o + 24)),
        ino: be_val(b.subrange(o + 24, o + 32)),
        mode: be_val(b.subrange(o + 32, o + 36)),
        uid: be_val(b.subrange(o + 36, o + 40)),
        gid: be_val(b.subrange(o + 40, o + 44)),
        size: be_val(b.subrange(o + 44, o + 52)),
        object_id: b.subrange(o + 52, o + 72),
        file_path: path,
    }
}

/// The path field read at `pstart`: exactly the declared length, or — when
/// the declared length is the cap — the bytes up to the next zero
/// terminator.  The second component is the offset just past the path.
pub open spec fn entry_path_at(b: Seq<u8>, pstart: nat, plenf: nat) -> Option<(Seq<u8>, nat)> {
    if plenf < 0xFFF {
        if pstart + plenf > b.len() {
            None
        } else {
            Some((b.subrange(pstart as int, (pstart + plenf) as int), (pstart + plenf) as nat))
        }
    } else {
        match find_byte(b.subrange(pstart as int, b.len() as int), 0) {
            None => None,
            Some(k) => Some((b.subrange(pstart as int, pstart + k), (pstart + k) as nat)),
        }
    }
}

/// The record decoded from `b` at offset `off` and the offset just past it:
/// fixed fields, path, terminator, and the padding that realigns the
/// stream.  `None` when the bytes run out before any of them completes.
pub open spec fn parse_entry_at(b: Seq<u8>, off: nat) -> Option<(EntryView, nat)> {
    if off + 74 > b.len() {
        None
    } else {
        let plenf = be_val(b.subrange(off as int + 72, off as int + 74)) % 0x1000;
        match entry_path_at(b, off + 74, plenf) {
            None => None,
            Some((path, after_path)) => if after_path + 1 > b.len() {
                None
            } else {
                let pos = (after_path + 1) as nat;
                let pad = pad_len(pos);
                if pos + pad > b.len() {
                    None
                } else {
                    Some((entry_view_of(b, off, path), pos + pad))
                }
            },
        }
    }
}

impl Entry {
    /// Decodes one record from `buf` at offset `off`, returning the record
    /// and the offset just past its padding.
    pub fn parse(buf: &Vec<u8>, off: usize) -> (r: Result<(Entry, usize), StoreError>)
        ensures
            match r {
                Ok(p) => parse_entry_at(buf@, off as nat) == Some((p.0@, p.1 as nat)) && p.1
                    <= buf@.len() && p.0@.wf(),
                Err(e) => parse_entry_at(buf@, off as nat) is None && e == StoreError::Truncated,
            },
    {
        let blen = buf.len();
        if blen < ENTRY_FIXED_LEN || off > blen - ENTRY_FIXED_LEN {
            return Err(StoreError::Truncated);
        }
        proof {
            lemma_pow256_small();
            lemma_be_val_bound(buf@.subrange(off + 32, off + 36));
            lemma_be_val_bound(buf@.subrange(off + 36, off + 40));
            lemma_be_val_bound(buf@.subrange(off + 40, off + 44));
        }
        let ctime = i64_val_of(read_be(buf, off, 8));
        let mtime = i64_val_of(read_be(buf, off + 8, 8));
        let dev = read_be(buf, off + 16, 8);
        let ino = read_be(buf, off + 24, 8);
        let mode = read_be(buf, off + 32, 4) as u32;
        let uid = read_be(buf, off + 36, 4) as u32;
        let gid = read_be(buf, off + 40, 4) as u32;
        let size = read_be(buf, off + 44, 8);
        let object_id = subvec(buf, off + 52, off + 72);
        let flags = read_be(buf, off + 72, 2);
        let plenf = (flags % 0x1000) as usize;
        let pstart = off + 74;
        let path_pair: (Vec<u8>, usize) = if plenf < 0xFFF {
            if blen - pstart < plenf {
                return Err(StoreError::Truncated);
            }
            (subvec(buf, pstart, pstart + plenf), pstart + plenf)
        } else {
            proof {
                let tail = buf@.subrange(pstart as int, blen as int);
                lemma_find_byte(tail, 0);
                assert(forall|j: int|
                    0 <= j < tail.len() ==> #[trigger] tail[j] == buf@[pstart + j]);
            }
            match find_byte_in(buf, pstart, blen, 0) {
                None => {
                    return Err(StoreError::Truncated);
                },
                Some(k) => {
                    proof {
                        let tail = buf@.subrange(pstart as int, blen as int);
                        assert(tail[k - pstart] == 0);
                        assert(forall|j: int| 0 <= j < k - pstart ==> #[trigger] tail[j] != 0);
                        assert(find_byte(tail, 0) == Some(k - pstart));
                    }
                    (subvec(buf, pstart, k), k)
                },
            }
        };
        let file_path = path_pair.0;
        let after_path = path_pair.1;
        if after_path >= blen {
            return Err(StoreError::Truncated);
        }
        let pos = after_path + 1;
        let pad = (8 - (pos % 8)) % 8;
        if blen - pos < pad {
            return Err(StoreError::Truncated);
        }
        let next = pos + pad;
        let e = Entry { ctime, mtime, dev, ino, mode, uid, gid, size, object_id, file_path };
        proof {
            assert(e@ =~= entry_view_of(
                buf@,
                off as nat,
                buf@.subrange(pstart as int, after_path as int),
            ));
        }
        Ok((e, next))
    }
}

/// The model of the whole index: a format version and the ordered records.
#[verifier::ext_equal]
pub ghost struct IndexView {
    pub version: nat,
    pub entries: Seq<EntryView>,
}

impl IndexView {
    /// What the on-disk format can hold: version and entry count fit their
    /// 4-byte fields, and every record is well formed.
    pub open spec fn wf(self) -> bool {
        &&& self.version < 0x100000000
        &&& self.entries.len() < 0x100000000
        &&& forall|i: int| 0 <= i < self.entries.len() ==> (#[trigger] self.entries[i]).wf()
    }
}

/// The ordered manifest of staged files, with a format version.
#[derive(Debug)]
pub struct Index {
    pub version: u32,
    pub entries: Vec<Entry>,
}

impl View for Index {
    type V = IndexView;

    open spec fn view(&self) -> IndexView {
        IndexView {
            version: self.version as nat,
            entries: self.entries@.map_values(|e: Entry| e@),
        }
    }
}

/// The four signature bytes that open a serialized index.
pub open spec fn signature_bytes() -> Seq<u8> {
    seq![68u8, 73u8, 82u8, 67u8]
}

/// The serialized records, each padded relative to its position, starting
/// at stream position `start`.
pub open spec fn entries_bytes(s: Seq<EntryView>, start: nat) -> Seq<u8>
    decreases s.len(),
{
    if s.len() == 0 {
        Seq::empty()
    } else {
        entry_bytes(s[0], start) + entries_bytes(
            s.drop_first(),
            start + entry_bytes(s[0], start).len(),
        )
    }
}

/// The checksummed part of a serialized index: signature, version, entry
/// count, then the records; the records start at position 12.
pub open spec fn index_body_bytes(v: IndexView) -> Seq<u8> {
    signature_bytes() + be_bytes(v.version, 4) + be_bytes(v.entries.len(), 4) + entries_bytes(
        v.entries,
        12,
    )
}

/// A serialized index: the body followed by the digest of the body.
pub open spec fn index_file_bytes(v: IndexView) -> Seq<u8> {
    index_body_bytes(v) + sha1_of(index_body_bytes(v))
}

proof fn lemma_entries_bytes_snoc(s: Seq<EntryView>, e: EntryView, start: nat)
    ensures
        entries_bytes(s.push(e), start) == entries_bytes(s, start) + entry_bytes(
            e,
            start + entries_bytes(s, start).len(),
        ),
    decreases s.len(),
{
    if s.len() == 0 {
        let a = entry_bytes(e, start);
        assert(s.push(e)[0] == e);
        assert(s.push(e).drop_first() =~= Seq::<EntryView>::empty());
        assert(entries_bytes(s, start) == Seq::<u8>::empty());
        assert(entry_bytes(s.push(e)[0], start) == a);
        assert(entries_bytes(s.push(e).drop_first(), start + a.len()) == Seq::<u8>::empty());
        assert(entries_bytes(s.push(e), start) == a + Seq::<u8>::empty());
        assert(a + Seq::<u8>::empty() =~= a);
        assert(Seq::<u8>::empty() + a =~= a);
    } else {
        let a = entry_bytes(s[0], start);
        let start1 = start + a.len();
        let t = s.drop_first();
        assert(s.push(e)[0] == s[0]);
        assert(s.push(e).drop_first() =~= t.push(e));
        lemma_entries_bytes_snoc(t, e, start1);
        let b = entries_bytes(t, start1);
        let c = entry_bytes(e, start1 + b.len());
        assert(entries_bytes(s.push(e), start) == a + (b + c));
        assert(entries_bytes(s, start) == a + b);
        assert(start + (a + b).len() == start1 + b.len());
        assert(a + (b + c) =~= (a + b) + c);
    }
}

/// `count` records decoded in sequence from `b` starting at `off`, with
/// the offset just past the last; `None` when any record runs out of bytes.
pub open spec fn parse_entries_n(b: Seq<u8>, off: nat, count: nat) -> Option<(Seq<EntryView>, nat)>
    decreases count,
{
    if count == 0 {
        Some((Seq::empty(), off))
    } else {
        match parse_entry_at(b, off) {
            None => None,
            Some((e, next)) => match parse_entries_n(b, next, (count - 1) as nat) {
                None => None,
                Some((rest, end)) => Some((seq![e] + rest, end)),
            },
        }
    }
}

/// What parsing index bytes yields.  A buffer too short for a checksum, or
/// whose trailing digest differs from the recomputed digest of everything
/// before it, is rejected as a checksum mismatch before any structure is
/// read; then the 4-byte signature is skipped (not validated), the version
/// and entry count are read, and that many records are decoded.
pub open spec fn parse_index(b: Seq<u8>) -> Result<IndexView, StoreError> {
    if b.len() < 20 {
        Err(StoreError::ChecksumMismatch)
    } else {
        let contents = b.subrange(0, b.len() - 20);
        let checksum = b.subrange(b.len() - 20, b.len() as int);
        if checksum != sha1_of(contents) {
            Err(StoreError::ChecksumMismatch)
        } else if contents.len() < 12 {
            Err(StoreError::Truncated)
        } else {
            let version = be_val(contents.subrange(4, 8));
            let count = be_val(contents.subrange(8, 12));
            match parse_entries_n(contents, 12, count) {
                None => Err(StoreError::Truncated),
                Some((es, end)) => Ok(IndexView { version, entries: es }),
            }
        }
    }
}

impl Index {
    /// A collection with no entries and the default format version.
    pub fn empty() -> (r: Index)
        ensures
            r@.version == DEFAULT_VERSION as nat,
            r@.entries == Seq::<EntryView>::empty(),
            r@.wf(),
    {
        let r = Index { version: DEFAULT_VERSION, entries: Vec::new() };
        proof {
            assert(r@.entries =~= Seq::<EntryView>::empty());
        }
        r
    }

    /// Validates the trailing checksum, then decodes the header fields and
    /// every record.
    #[verifier::loop_isolation(false)]
    pub fn parse(buf: Vec<u8>) -> (r: Result<Index, StoreError>)
        ensures
            match r {
                Ok(idx) => parse_index(buf@) == Ok::<IndexView, StoreError>(idx@) && idx@.wf(),
                Err(e) => parse_index(buf@) == Err::<IndexView, StoreError>(e),
            },
    {
        let blen = buf.len();
        if blen < 20 {
            return Err(StoreError::ChecksumMismatch);
        }
        let contents = subvec(&buf, 0, blen - 20);
        let stored = subvec(&buf, blen - 20, blen);
        let computed = sha1_digest(&contents);
        if !slice_eq(computed.as_slice(), stored.as_slice()) {
            return Err(StoreError::ChecksumMismatch);
        }
        let clen = blen - 20;
        if clen < 12 {
            return Err(StoreError::Truncated);
        }
        proof {
            lemma_pow256_small();
            lemma_be_val_bound(contents@.subrange(4, 8));
            lemma_be_val_bound(contents@.subrange(8, 12));
        }
        let version = read_be(&contents, 4, 4) as u32;
        let count = read_be(&contents, 8, 4) as usize;
        let ghost total: nat = count as nat;
        let mut entries: Vec<Entry> = Vec::new();
        let mut off: usize = 12;
        let mut i: usize = 0;
        proof {
            assert(entries@.map_values(|e: Entry| e@) =~= Seq::<EntryView>::empty());
        }
        while i < count
            invariant
                i <= count,
                entries@.len() == i,
                forall|j: int| 0 <= j < entries@.len() ==> (#[trigger] entries@[j])@.wf(),
                match parse_entries_n(contents@, off as nat, (count - i) as nat) {
                    None => parse_entries_n(contents@, 12, total) is None,
                    Some(p) => parse_entries_n(contents@, 12, total) == Some(
                        (entries@.map_values(|e: Entry| e@) + p.0, p.1),
                    ),
                },
            decreases count - i,
        {
            let step = Entry::parse(&contents, off);
            match step {
                Err(_) => {
                    return Err(StoreError::Truncated);
                },
                Ok(p) => {
                    let ghost pre_views = entries@.map_values(|e: Entry| e@);
                    let (e, next) = p;
                    entries.push(e);
                    off = next;
                    proof {
                        assert(entries@.map_values(|ee: Entry| ee@) =~= pre_views.push(e@));
                        assert forall|q: Seq<EntryView>| pre_views.push(e@) + q =~= pre_views + (
                        seq![e@] + q) by {}
                    }
                },
            }
            i = i + 1;
        }
        let idx = Index { version, entries };
        proof {
            assert(parse_entries_n(contents@, off as nat, 0) == Some(
                (Seq::<EntryView>::empty(), off as nat),
            ));
            assert(idx@.entries + Seq::<EntryView>::empty() =~= idx@.entries);
            assert(parse_index(buf@) == Ok::<IndexView, StoreError>(idx@));
        }
        Ok(idx)
    }

    /// Serializes the signature, version, entry count, every record, and
    /// the digest of everything written so far.
    #[verifier::loop_isolation(false)]
    pub fn serialize(&self) -> (r: Vec<u8>)
        requires
            self@.wf(),
        ensures
            r@ == index_file_bytes(self@),
            r@.len() == index_body_bytes(self@).len() + CHECKSUM_LEN,
    {
        let mut buf: Vec<u8> = Vec::new();
        buf.push(68);
        buf.push(73);
        buf.push(82);
        buf.push(67);
        push_be(&mut buf, self.version as u64, 4);
        push_be(&mut buf, self.entries.len() as u64, 4);
        let ghost header = signature_bytes() + be_bytes(self@.version, 4) + be_bytes(
            self@.entries.len(),
            4,
        );
        proof {
            lemma_be_bytes_len(self@.version, 4);
            lemma_be_bytes_len(self@.entries.len(), 4);
            assert(buf@ =~= header);
            assert(entries_bytes(self@.entries.subrange(0, 0), 12) =~= Seq::<u8>::empty());
            assert(buf@ =~= header + entries_bytes(self@.entries.subrange(0, 0), 12));
        }
        let mut i: usize = 0;
        while i < self.entries.len()
            invariant
                i <= self.entries@.len(),
                buf@ == header + entries_bytes(self@.entries.subrange(0, i as int), 12),
            decreases self.entries@.len() - i,
        {
            let ghost pre = buf@;
            let ghost prefix = self@.entries.subrange(0, i as int);
            proof {
                assert(self@.entries[i as int].wf());
            }
            self.entries[i].serialize(&mut buf);
            proof {
                lemma_entries_bytes_snoc(prefix, self@.entries[i as int], 12);
                assert(self@.entries.subrange(0, i + 1) =~= prefix.push(self@.entries[i as int]));
                assert(pre.len() == 12 + entries_bytes(prefix, 12).len());
                assert(buf@ =~= header + entries_bytes(self@.entries.subrange(0, i + 1), 12));
            }
            i = i + 1;
        }
        proof {
            assert(self@.entries.subrange(0, self.entries@.len() as int) =~= self@.entries);
        }
        let digest = sha1_digest(&buf);
        push_all(&mut buf, &digest);
        proof {
            assert(buf@ =~= index_file_bytes(self@));
        }
        buf
    }
}

/// The entries whose path differs from `p`, in their original order.
pub open spec fn remove_path_spec(s: Seq<EntryView>, p: Seq<u8>) -> Seq<EntryView>
    decreases s.len(),
{
    if s.len() == 0 {
        Seq::empty()
    } else if s[0].file_path == p {
        remove_path_spec(s.drop_first(), p)
    } else {
        seq![s[0]] + remove_path_spec(s.drop_first(), p)
    }
}

/// Strict lexicographic order on byte strings.
pub open spec fn lex_lt(a: Seq<u8>, b: Seq<u8>) -> bool
    decreases a.len(),
{
    if b.len() == 0 {
        false
    } else if a.len() == 0 {
        true
    } else if a[0] < b[0] {
        true
    } else if a[0] > b[0] {
        false
    } else {
        lex_lt(a.drop_first(), b.drop_first())
    }
}

/// Where a record with path `p` is inserted: before the first entry whose
/// path is not lexicographically smaller.
pub open spec fn insert_pos(s: Seq<EntryView>, p: Seq<u8>) -> nat
    decreases s.len(),
{
    if s.len() == 0 {
        0
    } else if lex_lt(s[0].file_path, p) {
        1 + insert_pos(s.drop_first(), p)
    } else {
        0
    }
}

/// Replace-on-add: any record with the entry's path is removed, then the
/// entry is inserted at its sorted position among what remains.
pub open spec fn add_spec(s: Seq<EntryView>, e: EntryView) -> Seq<EntryView> {
    let f = remove_path_spec(s, e.file_path);
    let k = insert_pos(f, e.file_path) as int;
    f.take(k) + seq![e] + f.skip(k)
}

pub proof fn lemma_insert_pos_le(s: Seq<EntryView>, p: Seq<u8>)
    ensures
        insert_pos(s, p) <= s.len(),
    decreases s.len(),
{
    if s.len() > 0 && lex_lt(s[0].file_path, p) {
        lemma_insert_pos_le(s.drop_first(), p);
    }
}

/// Removal keeps a subsequence: every element kept was there, and no more
/// elements than before.
pub proof fn lemma_remove_path_elements(s: Seq<EntryView>, p: Seq<u8>)
    ensures
        remove_path_spec(s, p).len() <= s.len(),
        forall|i: int|
            0 <= i < remove_path_spec(s, p).len() ==> s.contains(
                #[trigger] remove_path_spec(s, p)[i],
            ) && remove_path_spec(s, p)[i].file_path != p,
    decreases s.len(),
{
    if s.len() > 0 {
        lemma_remove_path_elements(s.drop_first(), p);
        let r = remove_path_spec(s, p);
        let rt = remove_path_spec(s.drop_first(), p);
        assert forall|i: int| 0 <= i < r.len() implies s.contains(#[trigger] r[i])
            && r[i].file_path != p by {
            if s[0].file_path == p {
                assert(r[i] == rt[i]);
                let j = choose|j: int| 0 <= j < s.drop_first().len() && s.drop_first()[j] == rt[i];
                assert(s[j + 1] == rt[i]);
            } else {
                if i == 0 {
                    assert(r[0] == s[0]);
                } else {
                    assert(r[i] == rt[i - 1]);
                    let j = choose|j: int|
                        0 <= j < s.drop_first().len() && s.drop_first()[j] == rt[i - 1];
                    assert(s[j + 1] == rt[i - 1]);
                }
            }
        }
    }
}

fn lex_lt_exec(a: &Vec<u8>, b: &Vec<u8>) -> (r: bool)
    ensures
        r == lex_lt(a@, b@),
{
    let mut i: usize = 0;
    let alen = a.len();
    let blen = b.len();
    proof {
        assert(a@.subrange(0, alen as int) =~= a@);
        assert(b@.subrange(0, blen as int) =~= b@);
    }
    while i < alen && i < blen
        invariant
            i <= alen,
            i <= blen,
            alen == a@.len(),
            blen == b@.len(),
            lex_lt(a@, b@) == lex_lt(
                a@.subrange(i as int, alen as int),
                b@.subrange(i as int, blen as int),
            ),
        decreases alen - i,
    {
        let ghost at = a@.subrange(i as int, alen as int);
        let ghost bt = b@.subrange(i as int, blen as int);
        if a[i] < b[i] {
            return true;
        }
        if a[i] > b[i] {
            return false;
        }
        proof {
            assert(at[0] == bt[0]);
            assert(at.drop_first() =~= a@.subrange(i + 1, alen as int));
            assert(bt.drop_first() =~= b@.subrange(i + 1, blen as int));
        }
        i = i + 1;
    }
    proof {
        let at = a@.subrange(i as int, alen as int);
        let bt = b@.subrange(i as int, blen as int);
        if i < blen {
            assert(at.len() == 0);
            assert(lex_lt(at, bt));
        } else {
            assert(bt.len() == 0);
            assert(!lex_lt(at, bt));
        }
    }
    i < blen
}

impl Index {
    /// Removes every record whose path equals `path`; removing a path that
    /// is not present changes nothing.
    #[verifier::loop_isolation(false)]
    pub fn remove(&mut self, path: &Vec<u8>)
        ensures
            final(self)@.version == old(self)@.version,
            final(self)@.entries == remove_path_spec(old(self)@.entries, path@),
            old(self)@.wf() ==> final(self)@.wf(),
    {
        proof {
            if self@.wf() {
                lemma_remove_path_elements(self@.entries, path@);
                let rr = remove_path_spec(self@.entries, path@);
                assert forall|i: int| 0 <= i < rr.len() implies (#[trigger] rr[i]).wf() by {
                    assert(self@.entries.contains(rr[i]));
                    let j = choose|j: int|
                        0 <= j < self@.entries.len() && self@.entries[j] == rr[i];
                    assert(self@.entries[j].wf());
                }
            }
        }
        let ghost orig = self@.entries;
        let mut kept: Vec<Entry> = Vec::new();
        proof {
            assert(kept@.map_values(|e: Entry| e@) =~= Seq::<EntryView>::empty());
            assert(Seq::<EntryView>::empty() + remove_path_spec(orig, path@) =~= remove_path_spec(
                orig,
                path@,
            ));
        }
        while self.entries.len() > 0
            invariant
                remove_path_spec(orig, path@) == kept@.map_values(|e: Entry| e@)
                    + remove_path_spec(self@.entries, path@),
                self.version == old(self).version,
            decreases self.entries@.len(),
        {
            let ghost pre_kept = kept@.map_values(|e: Entry| e@);
            let ghost remaining = self@.entries;
            let e = self.entries.remove(0);
            proof {
                assert(self@.entries =~= remaining.drop_first());
                assert(e@ == remaining[0]);
            }
            if !slice_eq(e.file_path.as_slice(), path.as_slice()) {
                kept.push(e);
                proof {
                    assert(kept@.map_values(|ee: Entry| ee@) =~= pre_kept.push(e@));
                    assert(pre_kept.push(e@) + remove_path_spec(self@.entries, path@) =~= pre_kept
                        + (seq![e@] + remove_path_spec(self@.entries, path@)));
                }
            }
        }
        proof {
            assert(remove_path_spec(self@.entries, path@) =~= Seq::<EntryView>::empty());
            assert(kept@.map_values(|e: Entry| e@) + Seq::<EntryView>::empty() =~= kept@.map_values(
                |e: Entry| e@,
            ));
        }
        self.entries = kept;
    }

    /// Replace-on-add: removes any record with the entry's path, then
    /// inserts the entry before the first record whose path is not
    /// lexicographically smaller.
    #[verifier::loop_isolation(false)]
    pub fn add(&mut self, e: Entry)
        ensures
            final(self)@.version == old(self)@.version,
            final(self)@.entries == add_spec(old(self)@.entries, e@),
            old(self)@.wf() && e@.wf() && old(self)@.entries.len() + 1 < 0x100000000
                ==> final(self)@.wf(),
    {
        proof {
            if self@.wf() && e@.wf() {
                lemma_add_spec_wf(self@.entries, e@);
            }
        }
        let ghost f = remove_path_spec(old(self)@.entries, e@.file_path);
        self.remove(&e.file_path);
        let n = self.entries.len();
        proof {
            lemma_insert_pos_le(f, e@.file_path);
        }
        let mut k: usize = 0;
        let mut scanning = true;
        while scanning && k < n
            invariant
                k <= n,
                forall|j: int| 0 <= j < k ==> lex_lt((#[trigger] f[j]).file_path, e@.file_path),
                !scanning ==> k < n && !lex_lt(f[k as int].file_path, e@.file_path),
            decreases n - k + (if scanning { 1int } else { 0int }),
        {
            if lex_lt_exec(&self.entries[k].file_path, &e.file_path) {
                k = k + 1;
            } else {
                scanning = false;
            }
        }
        proof {
            lemma_insert_pos_at(f, e@.file_path, k as nat);
        }
        self.entries.insert(k, e);
        proof {
            assert(self@.entries =~= f.insert(k as int, e@));
            assert(f.insert(k as int, e@) =~= f.take(k as int) + seq![e@] + f.skip(k as int));
        }
    }
}

/// A position with smaller paths before it and not-smaller at it is the
/// insertion position.
proof fn lemma_insert_pos_at(s: Seq<EntryView>, p: Seq<u8>, k: nat)
    requires
        k <= s.len(),
        forall|j: int| 0 <= j < k ==> lex_lt((#[trigger] s[j]).file_path, p),
        k < s.len() ==> !lex_lt(s[k as int].file_path, p),
    ensures
        insert_pos(s, p) == k,
    decreases s.len(),
{
    if k == 0 {
    } else {
        assert(lex_lt(s[0].file_path, p));
        let t = s.drop_first();
        assert(forall|j: int| 0 <= j < t.len() ==> t[j] == s[j + 1]);
        lemma_insert_pos_at(t, p, (k - 1) as nat);
    }
}

/// What replace-on-add yields is well formed when its inputs are: every
/// record kept was already there, and only one record is added.
pub proof fn lemma_add_spec_wf(s: Seq<EntryView>, e: EntryView)
    requires
        forall|i: int| 0 <= i < s.len() ==> (#[trigger] s[i]).wf(),
        e.wf(),
    ensures
        forall|i: int| 0 <= i < add_spec(s, e).len() ==> (#[trigger] add_spec(s, e)[i]).wf(),
        add_spec(s, e).len() <= s.len() + 1,
{
    let f = remove_path_spec(s, e.file_path);
    let k = insert_pos(f, e.file_path) as int;
    lemma_insert_pos_le(f, e.file_path);
    lemma_remove_path_elements(s, e.file_path);
    assert forall|i: int| 0 <= i < f.len() implies (#[trigger] f[i]).wf() by {
        assert(s.contains(f[i]));
        let j = choose|j: int| 0 <= j < s.len() && s[j] == f[i];
        assert(s[j].wf());
    }
    let r = add_spec(s, e);
    assert forall|i: int| 0 <= i < r.len() implies (#[trigger] r[i]).wf() by {
        if i < k {
            assert(r[i] == f[i]);
        } else if i == k {
            assert(r[i] == e);
        } else {
            assert(r[i] == f[i - 1]);
        }
    }
}

/// The flags and paths of a staging update: which files to fold in, and
/// whether records are removed, added, or both.
pub struct UpdateIndexArgs {
    pub add: bool,
    pub remove: bool,
    pub verbose: bool,
    pub files: Vec<Vec<u8>>,
}

/// One record folded into the collection: its path removed when `remove`
/// is set, then the record (re)inserted when `add` is set.
pub open spec fn apply_op(s: Seq<EntryView>, e: EntryView, add: bool, remove: bool) -> Seq<
    EntryView,
> {
    let s1 = if remove {
        remove_path_spec(s, e.file_path)
    } else {
        s
    };
    if add {
        add_spec(s1, e)
    } else {
        s1
    }
}

/// Records folded in one after the other, in order.
pub open spec fn apply_ops(s: Seq<EntryView>, es: Seq<EntryView>, add: bool, remove: bool) -> Seq<
    EntryView,
>
    decreases es.len(),
{
    if es.len() == 0 {
        s
    } else {
        apply_ops(apply_op(s, es[0], add, remove), es.drop_first(), add, remove)
    }
}

impl Index {
    /// Folds freshly built records into the collection, in order: for each,
    /// its path is removed when removal is requested, and the record is
    /// (re)inserted at its sorted position when adding is requested.
    #[verifier::loop_isolation(false)]
    pub fn update_entries(&mut self, entries: Vec<Entry>, add_flag: bool, remove_flag: bool)
        ensures
            final(self)@.version == old(self)@.version,
            final(self)@.entries == apply_ops(
                old(self)@.entries,
                entries@.map_values(|e: Entry| e@),
                add_flag,
                remove_flag,
            ),
    {
        let ghost evs = entries@.map_values(|e: Entry| e@);
        let ghost goal = apply_ops(old(self)@.entries, evs, add_flag, remove_flag);
        let mut rest = entries;
        while rest.len() > 0
            invariant
                goal == apply_ops(
                    self@.entries,
                    rest@.map_values(|e: Entry| e@),
                    add_flag,
                    remove_flag,
                ),
                self.version == old(self).version,
            decreases rest@.len(),
        {
            let ghost pre_views = rest@.map_values(|e: Entry| e@);
            let e = rest.remove(0);
            proof {
                assert(rest@.map_values(|ee: Entry| ee@) =~= pre_views.drop_first());
                assert(e@ == pre_views[0]);
            }
            if remove_flag {
                self.remove(&e.file_path);
            }
            if add_flag {
                self.add(e);
            }
        }
        proof {
            assert(rest@.map_values(|e: Entry| e@) =~= Seq::<EntryView>::empty());
        }
    }
}

/// How many records hold a given path.
pub open spec fn count_path(s: Seq<EntryView>, p: Seq<u8>) -> nat
    decreases s.len(),
{
    if s.len() == 0 {
        0
    } else {
        (if s[0].file_path == p {
            1nat
        } else {
            0nat
        }) + count_path(s.drop_first(), p)
    }
}

proof fn lemma_count_path_concat(a: Seq<EntryView>, b: Seq<EntryView>, p: Seq<u8>)
    ensures
        count_path(a + b, p) == count_path(a, p) + count_path(b, p),
    decreases a.len(),
{
    if a.len() == 0 {
        assert(a + b =~= b);
    } else {
        assert((a + b)[0] == a[0]);
        assert((a + b).drop_first() =~= a.drop_first() + b);
        lemma_count_path_concat(a.drop_first(), b, p);
    }
}

proof fn lemma_count_path_zero(s: Seq<EntryView>, p: Seq<u8>)
    requires
        forall|i: int| 0 <= i < s.len() ==> (#[trigger] s[i]).file_path != p,
    ensures
        count_path(s, p) == 0,
    decreases s.len(),
{
    if s.len() > 0 {
        assert(forall|i: int| 0 <= i < s.drop_first().len() ==> s.drop_first()[i] == s[i + 1]);
        lemma_count_path_zero(s.drop_first(), p);
    }
}

/// Adding an entry leaves exactly one record for its path, however many
/// held it before — so adding the same path twice leaves exactly one.
pub proof fn lemma_add_unique_path(s: Seq<EntryView>, e: EntryView)
    ensures
        count_path(add_spec(s, e), e.file_path) == 1,
{
    let p = e.file_path;
    let f = remove_path_spec(s, p);
    let k = insert_pos(f, p) as int;
    lemma_insert_pos_le(f, p);
    lemma_remove_path_elements(s, p);
    assert(forall|i: int| 0 <= i < f.take(k).len() ==> (#[trigger] f.take(k)[i]).file_path != p);
    assert(forall|i: int| 0 <= i < f.skip(k).len() ==> (#[trigger] f.skip(k)[i]).file_path != p);
    lemma_count_path_zero(f.take(k), p);
    lemma_count_path_zero(f.skip(k), p);
    lemma_count_path_concat(f.take(k), seq![e], p);
    lemma_count_path_concat(f.take(k) + seq![e], f.skip(k), p);
    assert(count_path(seq![e], p) == 1) by {
        let single = seq![e];
        assert(single[0] == e);
        assert(single.drop_first() =~= Seq::<EntryView>::empty());
        assert(count_path(Seq::<EntryView>::empty(), p) == 0);
        assert(count_path(single, p) == 1 + count_path(single.drop_first(), p));
    }
}

/// Removing a path that no record holds changes nothing.
pub proof fn lemma_remove_absent_noop(s: Seq<EntryView>, p: Seq<u8>)
    requires
        forall|i: int| 0 <= i < s.len() ==> (#[trigger] s[i]).file_path != p,
    ensures
        remove_path_spec(s, p) == s,
    decreases s.len(),
{
    if s.len() > 0 {
        assert(forall|i: int| 0 <= i < s.drop_first().len() ==> s.drop_first()[i] == s[i + 1]);
        lemma_remove_absent_noop(s.drop_first(), p);
        assert(seq![s[0]] + s.drop_first() =~= s);
    }
}

/// A path the record format decodes back exactly: shorter than the length
/// cap, or free of zero bytes so the capped decoding can find its end.
pub open spec fn path_decodable(e: EntryView) -> bool {
    e.file_path.len() < 0xFFF || forall|i: int| 0 <= i < e.file_path.len() ==> e.file_path[i] != 0
}

proof fn lemma_i64_roundtrip(x: int)
    requires
        -0x8000000000000000 <= x < 0x8000000000000000,
    ensures
        i64_val(u64_repr(x)) == x,
{
}

/// Where each fixed-width field lies within a record's fixed part.
#[verifier::rlimit(60)]
proof fn lemma_entry_fixed_fields(e: EntryView)
    requires
        e.object_id.len() == CHECKSUM_LEN,
    ensures
        entry_fixed_bytes(e).subrange(0, 8) == be_bytes(u64_repr(e.ctime), 8),
        entry_fixed_bytes(e).subrange(8, 16) == be_bytes(u64_repr(e.mtime), 8),
        entry_fixed_bytes(e).subrange(16, 24) == be_bytes(e.dev, 8),
        entry_fixed_bytes(e).subrange(24, 32) == be_bytes(e.ino, 8),
        entry_fixed_bytes(e).subrange(32, 36) == be_bytes(e.mode, 4),
        entry_fixed_bytes(e).subrange(36, 40) == be_bytes(e.uid, 4),
        entry_fixed_bytes(e).subrange(40, 44) == be_bytes(e.gid, 4),
        entry_fixed_bytes(e).subrange(44, 52) == be_bytes(e.size, 8),
        entry_fixed_bytes(e).subrange(52, 72) == e.object_id,
        entry_fixed_bytes(e).subrange(72, 74) == be_bytes(flags_val(e.file_path.len()), 2),
{
    lemma_entry_fixed_len(e);
    let c1 = be_bytes(u64_repr(e.ctime), 8);
    let c2 = be_bytes(u64_repr(e.mtime), 8);
    let c3 = be_bytes(e.dev, 8);
    let c4 = be_bytes(e.ino, 8);
    let c5 = be_bytes(e.mode, 4);
    let c6 = be_bytes(e.uid, 4);
    let c7 = be_bytes(e.gid, 4);
    let c8 = be_bytes(e.size, 8);
    let cf = be_bytes(flags_val(e.file_path.len()), 2);
    lemma_be_bytes_len(u64_repr(e.ctime), 8);
    lemma_be_bytes_len(u64_repr(e.mtime), 8);
    lemma_be_bytes_len(e.dev, 8);
    lemma_be_bytes_len(e.ino, 8);
    lemma_be_bytes_len(e.mode, 4);
    lemma_be_bytes_len(e.uid, 4);
    lemma_be_bytes_len(e.gid, 4);
    lemma_be_bytes_len(e.size, 8);
    lemma_be_bytes_len(flags_val(e.file_path.len()), 2);
    let p2 = c1 + c2;
    let p3 = p2 + c3;
    let p4 = p3 + c4;
    let p5 = p4 + c5;
    let p6 = p5 + c6;
    let p7 = p6 + c7;
    let p8 = p7 + c8;
    let p9 = p8 + e.object_id;
    let fx = entry_fixed_bytes(e);
    assert(fx == p9 + cf);
    assert(forall|j: int| 0 <= j < 72 ==> #[trigger] fx[j] == p9[j]);
    assert(forall|j: int| 0 <= j < 52 ==> #[trigger] p9[j] == p8[j]);
    assert(forall|j: int| 0 <= j < 44 ==> #[trigger] p8[j] == p7[j]);
    assert(forall|j: int| 0 <= j < 40 ==> #[trigger] p7[j] == p6[j]);
    assert(forall|j: int| 0 <= j < 36 ==> #[trigger] p6[j] == p5[j]);
    assert(forall|j: int| 0 <= j < 32 ==> #[trigger] p5[j] == p4[j]);
    assert(forall|j: int| 0 <= j < 24 ==> #[trigger] p4[j] == p3[j]);
    assert(forall|j: int| 0 <= j < 16 ==> #[trigger] p3[j] == p2[j]);
    assert(fx.subrange(0, 8) =~= c1);
    assert(fx.subrange(8, 16) =~= c2);
    assert(fx.subrange(16, 24) =~= c3);
    assert(fx.subrange(24, 32) =~= c4);
    assert(fx.subrange(32, 36) =~= c5);
    assert(fx.subrange(36, 40) =~= c6);
    assert(fx.subrange(40, 44) =~= c7);
    assert(fx.subrange(44, 52) =~= c8);
    assert(fx.subrange(52, 72) =~= e.object_id);
    assert(fx.subrange(72, 74) =~= cf);
}

/// Decoding a record from the bytes its serialization put at `off` yields
/// the record back, and stops exactly at the end of its padding.
#[verifier::rlimit(60)]
proof fn lemma_parse_entry_roundtrip(b: Seq<u8>, off: nat, e: EntryView)
    requires
        e.wf(),
        path_decodable(e),
        off + entry_bytes(e, off).len() <= b.len(),
        b.subrange(off as int, off as int + entry_bytes(e, off).len() as int) == entry_bytes(e, off),
    ensures
        parse_entry_at(b, off) == Some((e, (off + entry_bytes(e, off).len()) as nat)),
{
    let o = off as int;
    let eb = entry_bytes(e, off);
    let fx = entry_fixed_bytes(e);
    let up = entry_unpadded_bytes(e);
    let plen = e.file_path.len() as int;
    lemma_entry_fixed_len(e);
    lemma_pow256_small();
    assert(up.len() == 75 + plen);
    let padn = pad_len((off + up.len()) as nat);
    assert(eb.len() == up.len() + padn);
    assert(forall|j: int| 0 <= j < eb.len() ==> b[o + j] == #[trigger] eb[j]) by {
        assert(forall|j: int|
            0 <= j < eb.len() ==> #[trigger] b.subrange(o, o + eb.len() as int)[j] == b[o + j]);
    }
    assert(forall|j: int| 0 <= j < up.len() ==> #[trigger] eb[j] == up[j]);
    assert(forall|j: int| 0 <= j < 74 ==> #[trigger] up[j] == fx[j]);
    assert(forall|j: int| 74 <= j < 74 + plen ==> #[trigger] up[j] == e.file_path[j - 74]);
    assert(up[74 + plen] == 0);
    // Each fixed field reads back as its value.
    lemma_entry_fixed_fields(e);
    assert forall|j: int| 0 <= j < 74 implies b[o + j] == #[trigger] fx[j] by {
        assert(b[o + j] == eb[j]);
        assert(eb[j] == up[j]);
        assert(up[j] == fx[j]);
    }
    assert(b.subrange(o, o + 8) =~= fx.subrange(0, 8));
    lemma_be_val_of_be_bytes(u64_repr(e.ctime), 8);
    lemma_i64_roundtrip(e.ctime);
    assert(b.subrange(o + 8, o + 16) =~= fx.subrange(8, 16));
    lemma_be_val_of_be_bytes(u64_repr(e.mtime), 8);
    lemma_i64_roundtrip(e.mtime);
    assert(b.subrange(o + 16, o + 24) =~= fx.subrange(16, 24));
    lemma_be_val_of_be_bytes(e.dev, 8);
    assert(b.subrange(o + 24, o + 32) =~= fx.subrange(24, 32));
    lemma_be_val_of_be_bytes(e.ino, 8);
    assert(b.subrange(o + 32, o + 36) =~= fx.subrange(32, 36));
    lemma_be_val_of_be_bytes(e.mode, 4);
    assert(b.subrange(o + 36, o + 40) =~= fx.subrange(36, 40));
    lemma_be_val_of_be_bytes(e.uid, 4);
    assert(b.subrange(o + 40, o + 44) =~= fx.subrange(40, 44));
    lemma_be_val_of_be_bytes(e.gid, 4);
    assert(b.subrange(o + 44, o + 52) =~= fx.subrange(44, 52));
    lemma_be_val_of_be_bytes(e.size, 8);
    assert(b.subrange(o + 52, o + 72) =~= fx.subrange(52, 72));
    assert(b.subrange(o + 72, o + 74) =~= fx.subrange(72, 74));
    lemma_be_val_of_be_bytes(flags_val(e.file_path.len()), 2);
    let plenf = be_val(b.subrange(o + 72, o + 74)) % 0x1000;
    assert(plenf == flags_val(e.file_path.len()));
    // The path reads back exactly.
    let pstart = off + 74;
    assert forall|i: int| 0 <= i < plen implies b[o + 74 + i] == e.file_path[i] by {
        assert(b[o + 74 + i] == eb[74 + i]);
        assert(eb[74 + i] == up[74 + i]);
        assert(up[74 + i] == e.file_path[i]);
    }
    assert(b[o + 74 + plen] == 0) by {
        assert(b[o + 74 + plen] == eb[74 + plen]);
        assert(eb[74 + plen] == up[74 + plen]);
    }
    if e.file_path.len() < 0xFFF {
        assert(plenf == plen);
        assert(b.subrange(pstart as int, pstart as int + plen) =~= e.file_path);
        assert(entry_path_at(b, pstart as nat, plenf) == Some(
            (e.file_path, (pstart + plen) as nat),
        ));
    } else {
        assert(plenf == 0xFFF);
        let tail = b.subrange(pstart as int, b.len() as int);
        assert forall|i: int| 0 <= i < plen implies #[trigger] tail[i] != 0 by {
            assert(tail[i] == b[o + 74 + i]);
            assert(b[o + 74 + i] == e.file_path[i]);
            assert(e.file_path[i] != 0);
        }
        assert(tail[plen] == b[o + 74 + plen]);
        assert(tail[plen] == 0);
        lemma_find_byte(tail, 0);
        assert(find_byte(tail, 0) == Some(plen));
        assert(b.subrange(pstart as int, pstart as int + plen) =~= e.file_path);
        assert(entry_path_at(b, pstart as nat, plenf) == Some(
            (e.file_path, (pstart + plen) as nat),
        ));
    }
    let pos = (pstart + plen + 1) as nat;
    assert(pos == off + up.len());
    assert(pad_len(pos) == padn);
    assert(pos + padn == off + eb.len());
    assert(entry_view_of(b, off, e.file_path) =~= e);
}

/// Decoding a run of records from the bytes their serialization put at
/// `off` yields them all back, in order.
proof fn lemma_parse_entries_roundtrip(b: Seq<u8>, off: nat, s: Seq<EntryView>)
    requires
        forall|i: int| 0 <= i < s.len() ==> (#[trigger] s[i]).wf() && path_decodable(s[i]),
        off + entries_bytes(s, off).len() <= b.len(),
        b.subrange(off as int, off as int + entries_bytes(s, off).len() as int) == entries_bytes(
            s,
            off,
        ),
    ensures
        parse_entries_n(b, off, s.len()) == Some((s, (off + entries_bytes(s, off).len()) as nat)),
    decreases s.len(),
{
    if s.len() > 0 {
        let e = s[0];
        let eb0 = entry_bytes(e, off);
        let rest = s.drop_first();
        let off1 = off + eb0.len();
        let ebs = entries_bytes(s, off);
        let ebr = entries_bytes(rest, off1 as nat);
        assert(ebs == eb0 + ebr);
        assert forall|j: int| 0 <= j < ebs.len() implies b[off + j] == #[trigger] ebs[j] by {
            assert(b.subrange(off as int, off as int + ebs.len() as int)[j] == b[off + j]);
        }
        assert(b.subrange(off as int, off as int + eb0.len() as int) =~= eb0);
        lemma_parse_entry_roundtrip(b, off, e);
        assert(b.subrange(off1 as int, off1 as int + ebr.len() as int) =~= ebr) by {
            assert forall|j: int|
                0 <= j < ebr.len() implies b[off1 + j] == #[trigger] ebr[j] by {
                assert(b[off + (eb0.len() + j)] == ebs[eb0.len() + j]);
            }
        }
        assert(forall|i: int| 0 <= i < rest.len() ==> #[trigger] rest[i] == s[i + 1]);
        lemma_parse_entries_roundtrip(b, off1 as nat, rest);
        assert(seq![e] + rest =~= s);
    }
}

/// Round trip: an index parsed back from its serialized bytes has the same
/// version and the same records, for any collection the format can hold
/// whose paths decode back exactly, the trailing digest being a
/// fingerprint wide.
pub proof fn lemma_index_roundtrip(v: IndexView)
    requires
        v.wf(),
        forall|i: int| 0 <= i < v.entries.len() ==> path_decodable(#[trigger] v.entries[i]),
        sha1_of(index_body_bytes(v)).len() == CHECKSUM_LEN,
    ensures
        parse_index(index_file_bytes(v)) == Ok::<IndexView, StoreError>(v),
{
    let body = index_body_bytes(v);
    let file = index_file_bytes(v);
    let bv = be_bytes(v.version, 4);
    let bc = be_bytes(v.entries.len(), 4);
    let ebs = entries_bytes(v.entries, 12);
    let p1 = signature_bytes() + bv;
    let p2 = p1 + bc;
    lemma_be_bytes_len(v.version, 4);
    lemma_be_bytes_len(v.entries.len(), 4);
    lemma_pow256_small();
    assert(body == p2 + ebs);
    assert(body.len() == 12 + ebs.len());
    assert(file.len() == body.len() + 20);
    let contents = file.subrange(0, file.len() - 20);
    let checksum = file.subrange(file.len() - 20, file.len() as int);
    assert(contents =~= body);
    assert(checksum =~= sha1_of(body));
    assert(checksum == sha1_of(contents));
    assert forall|j: int| 4 <= j < 8 implies body[j] == bv[j - 4] by {
        assert(body[j] == p2[j]);
        assert(p2[j] == p1[j]);
        assert(p1[j] == bv[j - 4]);
    }
    assert forall|j: int| 8 <= j < 12 implies body[j] == bc[j - 8] by {
        assert(body[j] == p2[j]);
        assert(p2[j] == bc[j - 8]);
    }
    assert(contents.subrange(4, 8) =~= bv);
    assert(contents.subrange(8, 12) =~= bc);
    lemma_be_val_of_be_bytes(v.version, 4);
    lemma_be_val_of_be_bytes(v.entries.len(), 4);
    assert forall|j: int| 0 <= j < ebs.len() implies body[12 + j] == #[trigger] ebs[j] by {
        assert(body[12 + j] == (p2 + ebs)[12 + j]);
    }
    assert(body.subrange(12, 12 + ebs.len() as int) =~= ebs);
    lemma_parse_entries_roundtrip(body, 12, v.entries);
    assert(parse_entries_n(contents, 12, v.entries.len()) == Some(
        (v.entries, (12 + ebs.len()) as nat),
    ));
    assert(IndexView { version: v.version, entries: v.entries } =~= v);
}

/// Whenever the last twenty bytes differ from the digest of everything
/// before them, parsing rejects the buffer as a checksum mismatch — and a
/// buffer too short to hold a checksum at all is rejected the same way.
pub proof fn lemma_checksum_guard(b: Seq<u8>)
    requires
        b.len() < 20 || b.subrange(b.len() - 20, b.len() as int) != sha1_of(
            b.subrange(0, b.len() - 20),
        ),
    ensures
        parse_index(b) == Err::<IndexView, StoreError>(StoreError::ChecksumMismatch),
{
}

} // verus!
