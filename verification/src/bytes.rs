//! Byte-level primitives shared by the object codec and the index format:
//! big-endian fixed-width integers, decimal rendering, and small helpers
//! over byte vectors.

use vstd::prelude::*;

verus! {

/// 256 raised to the `k`th power: the number of values `k` bytes can hold.
pub open spec fn pow256(k: nat) -> nat
    decreases k,
{
    if k == 0 {
        1
    } else {
        256 * pow256((k - 1) as nat)
    }
}

/// The big-endian encoding of `n` in exactly `len` bytes, most significant
/// byte first.  When `n` does not fit, only the low `len` bytes appear.
pub open spec fn be_bytes(n: nat, len: nat) -> Seq<u8>
    decreases len,
{
    if len == 0 {
        Seq::empty()
    } else {
        be_bytes(n / 256, (len - 1) as nat) + seq![(n % 256) as u8]
    }
}

/// The value of a byte sequence read as a big-endian integer.
pub open spec fn be_val(s: Seq<u8>) -> nat
    decreases s.len(),
{
    if s.len() == 0 {
        0
    } else {
        (be_val(s.drop_last()) * 256 + s.last()) as nat
    }
}

pub proof fn lemma_pow256_pos(k: nat)
    ensures
        pow256(k) >= 1,
    decreases k,
{
    if k > 0 {
        lemma_pow256_pos((k - 1) as nat);
    }
}

pub proof fn lemma_pow256_increases(j: nat, k: nat)
    requires
        j <= k,
    ensures
        pow256(j) <= pow256(k),
    decreases k,
{
    if j < k {
        lemma_pow256_increases(j, (k - 1) as nat);
        lemma_pow256_pos((k - 1) as nat);
    }
}

/// The concrete values of the small powers the formats use.
pub proof fn lemma_pow256_small()
    ensures
        pow256(1) == 0x100,
        pow256(2) == 0x10000,
        pow256(4) == 0x100000000,
        pow256(7) == 0x100000000000000,
        pow256(8) == 0x10000000000000000,
{
    assert(pow256(0) == 1);
    assert(pow256(1) == 0x100);
    assert(pow256(2) == 0x10000);
    assert(pow256(3) == 0x1000000);
    assert(pow256(4) == 0x100000000);
    assert(pow256(5) == 0x10000000000);
    assert(pow256(6) == 0x1000000000000);
    assert(pow256(7) == 0x100000000000000);
    assert(pow256(8) == 0x10000000000000000);
}

pub proof fn lemma_be_bytes_len(n: nat, len: nat)
    ensures
        be_bytes(n, len).len() == len,
    decreases len,
{
    if len > 0 {
        lemma_be_bytes_len(n / 256, (len - 1) as nat);
    }
}

/// Reading back the big-endian encoding of a value that fits recovers it.
pub proof fn lemma_be_val_of_be_bytes(n: nat, len: nat)
    requires
        n < pow256(len),
    ensures
        be_val(be_bytes(n, len)) == n,
    decreases len,
{
    if len == 0 {
    } else {
        let prefix = be_bytes(n / 256, (len - 1) as nat);
        lemma_be_bytes_len(n / 256, (len - 1) as nat);
        assert((prefix + seq![(n % 256) as u8]).drop_last() =~= prefix);
        assert(n / 256 < pow256((len - 1) as nat)) by {
            lemma_pow256_pos((len - 1) as nat);
            assert(pow256(len) == 256 * pow256((len - 1) as nat));
        }
        lemma_be_val_of_be_bytes(n / 256, (len - 1) as nat);
    }
}

/// A big-endian value is bounded by what its width can hold.
pub proof fn lemma_be_val_bound(s: Seq<u8>)
    ensures
        be_val(s) < pow256(s.len()),
    decreases s.len(),
{
    if s.len() > 0 {
        lemma_be_val_bound(s.drop_last());
    }
}

/// Appends the `len`-byte big-endian encoding of `n` to `buf`.
pub fn push_be(buf: &mut Vec<u8>, n: u64, len: usize)
    ensures
        final(buf)@ == old(buf)@ + be_bytes(n as nat, len as nat),
    decreases len,
{
    if len == 0 {
        assert(buf@ =~= old(buf)@ + be_bytes(n as nat, 0));
    } else {
        push_be(buf, n / 256, len - 1);
        buf.push((n % 256) as u8);
        assert(buf@ =~= old(buf)@ + be_bytes(n as nat, len as nat));
    }
}

/// Reads `len` bytes of `buf` starting at `off` as a big-endian integer.
pub fn read_be(buf: &Vec<u8>, off: usize, len: usize) -> (r: u64)
    requires
        off + len <= buf@.len(),
        len <= 8,
    ensures
        r == be_val(buf@.subrange(off as int, off + len)),
{
    let blen = buf.len();
    let mut acc: u64 = 0;
    let mut i: usize = 0;
    proof {
        assert(buf@.subrange(off as int, off as int) =~= Seq::<u8>::empty());
    }
    while i < len
        invariant
            i <= len,
            len <= 8,
            blen == buf@.len(),
            off + len <= blen,
            acc == be_val(buf@.subrange(off as int, off + i)),
        decreases len - i,
    {
        proof {
            let cur = buf@.subrange(off as int, off + i);
            lemma_be_val_bound(cur);
            lemma_pow256_increases(i as nat, 7);
            lemma_pow256_small();
            assert(buf@.subrange(off as int, off + i + 1).drop_last() =~= cur);
        }
        acc = acc * 256 + (buf[off + i] as u64);
        i = i + 1;
    }
    acc
}

/// The decimal digits of `n` in ASCII, most significant first, no sign,
/// no leading zeros (a lone `0` for zero).
pub open spec fn dec_of(n: nat) -> Seq<u8>
    decreases n,
{
    if n < 10 {
        seq![(48 + n) as u8]
    } else {
        dec_of(n / 10) + seq![(48 + n % 10) as u8]
    }
}

/// Every byte of a decimal rendering is an ASCII digit.
pub proof fn lemma_dec_of_digits(n: nat)
    ensures
        forall|i: int| 0 <= i < dec_of(n).len() ==> 48 <= #[trigger] dec_of(n)[i] <= 57,
    decreases n,
{
    if n >= 10 {
        lemma_dec_of_digits(n / 10);
        let s = dec_of(n);
        let p = dec_of(n / 10);
        assert(forall|i: int| 0 <= i < p.len() ==> #[trigger] s[i] == p[i]);
        assert(s[s.len() - 1] == 48 + n % 10);
    }
}

/// Appends the ASCII decimal rendering of `n` to `buf`.
pub fn push_dec(buf: &mut Vec<u8>, n: u64)
    ensures
        final(buf)@ == old(buf)@ + dec_of(n as nat),
    decreases n,
{
    if n < 10 {
        buf.push(48 + n as u8);
        assert(buf@ =~= old(buf)@ + dec_of(n as nat));
    } else {
        push_dec(buf, n / 10);
        buf.push(48 + (n % 10) as u8);
        assert(buf@ =~= old(buf)@ + dec_of(n as nat));
    }
}

/// The position of the first occurrence of `b` in `s`, if any.
pub open spec fn find_byte(s: Seq<u8>, b: u8) -> Option<int>
    decreases s.len(),
{
    if s.len() == 0 {
        None
    } else if s[0] == b {
        Some(0)
    } else {
        match find_byte(s.drop_first(), b) {
            None => None,
            Some(i) => Some(i + 1),
        }
    }
}

/// `find_byte` returns the first occurrence: the byte is there, and nothing
/// before it matches; `None` means no occurrence at all.
pub proof fn lemma_find_byte(s: Seq<u8>, b: u8)
    ensures
        match find_byte(s, b) {
            None => forall|i: int| 0 <= i < s.len() ==> s[i] != b,
            Some(i) => 0 <= i < s.len() && s[i] == b && forall|j: int| 0 <= j < i ==> s[j] != b,
        },
    decreases s.len(),
{
    if s.len() > 0 && s[0] != b {
        let t = s.drop_first();
        lemma_find_byte(t, b);
        assert(forall|i: int| 0 <= i < t.len() ==> #[trigger] t[i] == s[i + 1]);
        match find_byte(t, b) {
            None => {
                assert forall|i: int| 0 <= i < s.len() implies s[i] != b by {
                    if i > 0 {
                        assert(t[i - 1] != b);
                    }
                }
            },
            Some(j) => {
                assert(s[j + 1] == b);
                assert forall|k: int| 0 <= k < j + 1 implies s[k] != b by {
                    if k > 0 {
                        assert(t[k - 1] != b);
                    }
                }
            },
        }
    }
}

/// Searches `buf[from..to]` for the byte `b`, returning the position of its
/// first occurrence in that window.
pub fn find_byte_in(buf: &Vec<u8>, from: usize, to: usize, b: u8) -> (r: Option<usize>)
    requires
        from <= to <= buf@.len(),
    ensures
        match r {
            Some(i) => from <= i < to && buf@[i as int] == b && forall|j: int|
                from <= j < i ==> buf@[j] != b,
            None => forall|j: int| from <= j < to ==> buf@[j] != b,
        },
{
    let mut i: usize = from;
    while i < to
        invariant
            from <= i <= to <= buf@.len(),
            forall|j: int| from <= j < i ==> buf@[j] != b,
        decreases to - i,
    {
        if buf[i] == b {
            return Some(i);
        }
        i = i + 1;
    }
    None
}

/// Appends all of `src` to `buf`.
pub fn push_all(buf: &mut Vec<u8>, src: &Vec<u8>)
    ensures
        final(buf)@ == old(buf)@ + src@,
{
    let mut i: usize = 0;
    proof {
        assert(buf@ =~= old(buf)@ + src@.subrange(0, 0));
    }
    while i < src.len()
        invariant
            i <= src@.len(),
            buf@ == old(buf)@ + src@.subrange(0, i as int),
        decreases src@.len() - i,
    {
        buf.push(src[i]);
        proof {
            assert(buf@ =~= old(buf)@ + src@.subrange(0, i + 1));
        }
        i = i + 1;
    }
    proof {
        assert(buf@ =~= old(buf)@ + src@);
    }
}

/// Copies `buf[a..b]` into a fresh vector.
pub fn subvec(buf: &Vec<u8>, a: usize, b: usize) -> (r: Vec<u8>)
    requires
        a <= b <= buf@.len(),
    ensures
        r@ == buf@.subrange(a as int, b as int),
{
    let mut r: Vec<u8> = Vec::new();
    let mut i: usize = a;
    while i < b
        invariant
            a <= i <= b <= buf@.len(),
            r@ == buf@.subrange(a as int, i as int),
        decreases b - i,
    {
        r.push(buf[i]);
        proof {
            assert(r@ =~= buf@.subrange(a as int, i + 1));
        }
        i = i + 1;
    }
    r
}

/// Compares two byte slices for equality.
pub fn slice_eq(a: &[u8], b: &[u8]) -> (r: bool)
    ensures
        r <==> a@ == b@,
{
    if a.len() != b.len() {
        proof {
            assert(a@.len() != b@.len());
        }
        return false;
    }
    let mut i: usize = 0;
    while i < a.len()
        invariant
            i <= a@.len(),
            a@.len() == b@.len(),
            forall|j: int| 0 <= j < i ==> a@[j] == b@[j],
        decreases a@.len() - i,
    {
        if a[i] != b[i] {
            return false;
        }
        i = i + 1;
    }
    proof {
        assert(a@ =~= b@);
    }
    true
}

} // verus!
