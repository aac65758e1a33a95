//! The content fingerprint: a fixed 20-byte digest of a byte sequence, and
//! its lowercase hexadecimal rendering used for two-level object addressing.

use vstd::prelude::*;
use sha1::{Digest, Sha1};

verus! {

/// The number of bytes in a fingerprint.
pub const CHECKSUM_LEN: usize = 20;

/// The digest of a byte sequence.  The value is determined by the input
/// bytes alone; nothing further is assumed about it.
pub uninterp spec fn sha1_of(bytes: Seq<u8>) -> Seq<u8>;

/// Relies on sha1's `Sha1::digest`: the 20-byte digest is a pure function
/// of the input bytes.
#[verifier::external_body]
pub(crate) fn sha1_digest(b: &Vec<u8>) -> (r: Vec<u8>)
    ensures
        r@ == sha1_of(b@),
        r@.len() == CHECKSUM_LEN,
{
    Sha1::digest(b.as_slice()).to_vec()
}

/// Fingerprint determinism: digesting equal byte sequences always yields
/// equal fingerprints.  (That distinct contents yield distinct
/// fingerprints is a cryptographic expectation, spot-checked by tests, not
/// a statement that can be proved here.)
pub proof fn lemma_digest_deterministic(a: Seq<u8>, b: Seq<u8>)
    requires
        a == b,
    ensures
        sha1_of(a) == sha1_of(b),
{
}

/// The lowercase hexadecimal digit for a value below 16.
pub open spec fn hex_digit(n: nat) -> u8 {
    if n < 10 {
        (48 + n) as u8
    } else {
        (87 + n) as u8
    }
}

/// The lowercase hexadecimal rendering of a byte sequence, two digits per
/// byte, most significant nibble first.
pub open spec fn hex_of(s: Seq<u8>) -> Seq<u8>
    decreases s.len(),
{
    if s.len() == 0 {
        Seq::empty()
    } else {
        hex_of(s.drop_last()) + seq![
            hex_digit((s.last() / 16) as nat),
            hex_digit((s.last() % 16) as nat),
        ]
    }
}

/// Renders a fingerprint (or any byte string) in lowercase hexadecimal.
pub fn to_hex(id: &Vec<u8>) -> (r: Vec<u8>)
    ensures
        r@ == hex_of(id@),
{
    let mut r: Vec<u8> = Vec::new();
    let mut i: usize = 0;
    proof {
        assert(id@.subrange(0, 0) =~= Seq::<u8>::empty());
    }
    while i < id.len()
        invariant
            i <= id@.len(),
            r@ == hex_of(id@.subrange(0, i as int)),
        decreases id@.len() - i,
    {
        let byte = id[i];
        let hi = byte / 16;
        let lo = byte % 16;
        r.push(if hi < 10 { 48 + hi } else { 87 + hi });
        r.push(if lo < 10 { 48 + lo } else { 87 + lo });
        proof {
            let cur = id@.subrange(0, i + 1);
            assert(cur.drop_last() =~= id@.subrange(0, i as int));
            assert(r@ =~= hex_of(id@.subrange(0, i as int)) + seq![
                hex_digit((byte / 16) as nat),
                hex_digit((byte % 16) as nat),
            ]);
        }
        i = i + 1;
    }
    proof {
        assert(id@.subrange(0, id@.len() as int) =~= id@);
    }
    r
}

} // verus!
