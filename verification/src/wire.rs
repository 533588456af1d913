//! Fixed-width integers and terminated strings as they lie in a document buffer.
use vstd::prelude::*;

verus! {

/// The largest length a four-byte signed length field can declare.
pub const MAX_LEN: usize = 0x7fff_ffff;

/// The four bytes, least significant first, of a length.
pub open spec fn le32(n: int) -> Seq<u8> {
    seq![
        (n % 256) as u8,
        ((n / 256) % 256) as u8,
        ((n / 65536) % 256) as u8,
        ((n / 16777216) % 256) as u8,
    ]
}

/// The number that the first four bytes of `s` spell, least significant first.
pub open spec fn le32_value(s: Seq<u8>) -> int
    recommends
        s.len() >= 4,
{
    s[0] as int + 256 * (s[1] as int) + 65536 * (s[2] as int) + 16777216 * (s[3] as int)
}

/// A byte and what stands above it come apart by division.
proof fn lemma_low_byte(low: int, high: int)
    requires
        0 <= low < 256,
    ensures
        (low + 256 * high) % 256 == low,
        (low + 256 * high) / 256 == high,
{
}

/// Reading back what `le32` wrote gives the number that was written.
pub proof fn lemma_le32_value_of_le32(n: int)
    requires
        0 <= n < 0x1_0000_0000,
    ensures
        le32(n).len() == 4,
        le32_value(le32(n)) == n,
{
    let q1 = n / 256;
    let q2 = q1 / 256;
    let q3 = q2 / 256;
    assert(n == n % 256 + 256 * q1);
    assert(q1 == q1 % 256 + 256 * q2);
    assert(q2 == q2 % 256 + 256 * q3);
    assert(0 <= q3 < 256);
    assert(q2 == n / 65536);
    assert(q3 == n / 16777216);
}

/// Any bytes that follow the four do not change the number read.
pub proof fn lemma_le32_value_prefix(n: int, rest: Seq<u8>)
    requires
        0 <= n < 0x1_0000_0000,
    ensures
        le32_value(le32(n) + rest) == n,
{
    lemma_le32_value_of_le32(n);
    assert((le32(n) + rest)[0] == le32(n)[0]);
    assert((le32(n) + rest)[1] == le32(n)[1]);
    assert((le32(n) + rest)[2] == le32(n)[2]);
    assert((le32(n) + rest)[3] == le32(n)[3]);
}

/// Writing the number read from four bytes gives those four bytes.
pub proof fn lemma_le32_of_le32_value(s: Seq<u8>)
    requires
        s.len() >= 4,
    ensures
        0 <= le32_value(s) < 0x1_0000_0000,
        le32(le32_value(s)) == s.subrange(0, 4),
{
    let b0 = s[0] as int;
    let b1 = s[1] as int;
    let b2 = s[2] as int;
    let b3 = s[3] as int;
    let n = le32_value(s);
    let q1 = b1 + 256 * (b2 + 256 * b3);
    let q2 = b2 + 256 * b3;
    assert(n == b0 + 256 * q1);
    lemma_low_byte(b0, q1);
    lemma_low_byte(b1, q2);
    lemma_low_byte(b2, b3);
    assert(n / 256 == q1);
    assert(q1 / 256 == q2);
    assert(q2 / 256 == b3);
    assert(n / 65536 == q2) by {
        assert(n / 65536 == (n / 256) / 256);
    }
    assert(n / 16777216 == b3) by {
        assert(n / 16777216 == (n / 65536) / 256);
    }
    assert(b3 % 256 == b3);
    assert(le32(n) =~= s.subrange(0, 4));
}

/// Reads the four-byte length at `at`.
pub fn read_le32(bytes: &[u8], at: usize) -> (n: u32)
    requires
        at + 4 <= bytes.len(),
    ensures
        n == le32_value(bytes@.subrange(at as int, bytes.len() as int)),
        n == le32_value(bytes@.skip(at as int)),
{
    let b0: u32 = bytes[at] as u32;
    let b1: u32 = bytes[at + 1] as u32;
    let b2: u32 = bytes[at + 2] as u32;
    let b3: u32 = bytes[at + 3] as u32;
    b0 + 256 * b1 + 65536 * b2 + 16777216 * b3
}

/// Appends the four bytes of `n` to `out`.
pub fn push_le32(out: &mut Vec<u8>, n: u32)
    ensures
        final(out)@ == old(out)@ + le32(n as int),
{
    out.push((n % 256) as u8);
    out.push(((n / 256) % 256) as u8);
    out.push(((n / 65536) % 256) as u8);
    out.push(((n / 16777216) % 256) as u8);
    assert(out@ =~= old(out)@ + le32(n as int));
}

/// `n` is the place of the first zero byte of `s`.
pub open spec fn cstring_at(s: Seq<u8>, n: int) -> bool {
    &&& 0 <= n < s.len()
    &&& s[n] == 0
    &&& forall|i: int| 0 <= i < n ==> s[i] != 0
}

/// `s` holds a zero byte.
pub open spec fn has_cstring(s: Seq<u8>) -> bool {
    exists|n: int| cstring_at(s, n)
}

/// The number of bytes before the first zero byte of `s`.
pub open spec fn cstring_len(s: Seq<u8>) -> int {
    choose|n: int| cstring_at(s, n)
}

/// No byte of `s` is zero.
pub open spec fn nul_free(s: Seq<u8>) -> bool {
    forall|i: int| 0 <= i < s.len() ==> s[i] != 0
}

/// The first zero byte is found at one place only.
pub proof fn lemma_cstring_unique(s: Seq<u8>, n: int)
    requires
        cstring_at(s, n),
    ensures
        has_cstring(s),
        cstring_len(s) == n,
{
    let m = cstring_len(s);
    assert(cstring_at(s, m));
    if m < n {
        assert(s[m] != 0);
    } else if n < m {
        assert(s[n] != 0);
    }
}

/// Finds the first zero byte in `bytes[start..end]` and gives the count of bytes before it.
pub fn scan_cstring(bytes: &[u8], start: usize, end: usize) -> (found: Option<usize>)
    requires
        start <= end <= bytes.len(),
    ensures
        match found {
            Some(n) => cstring_at(bytes@.subrange(start as int, end as int), n as int),
            None => !has_cstring(bytes@.subrange(start as int, end as int)),
        },
{
    let ghost s = bytes@.subrange(start as int, end as int);
    let mut at: usize = start;
    while at < end
        invariant
            start <= at <= end <= bytes.len(),
            s == bytes@.subrange(start as int, end as int),
            forall|i: int| 0 <= i < at - start ==> s[i] != 0,
        decreases end - at,
    {
        if bytes[at] == 0 {
            assert(s[at - start] == bytes@[at as int]);
            return Some(at - start);
        }
        assert(s[at - start] == bytes@[at as int]);
        at = at + 1;
    }
    assert(!has_cstring(s)) by {
        if has_cstring(s) {
            let n = cstring_len(s);
            assert(cstring_at(s, n));
            assert(s[n] != 0);
        }
    }
    None
}

/// Appends the bytes of `src` to `out`.
pub fn push_bytes(out: &mut Vec<u8>, src: &[u8])
    ensures
        final(out)@ == old(out)@ + src@,
{
    let mut i: usize = 0;
    while i < src.len()
        invariant
            i <= src.len(),
            out@ == old(out)@ + src@.subrange(0, i as int),
        decreases src.len() - i,
    {
        out.push(src[i]);
        assert(src@.subrange(0, i + 1) =~= src@.subrange(0, i as int).push(src@[i as int]));
        i = i + 1;
    }
    assert(src@.subrange(0, i as int) =~= src@);
}

/// A fresh buffer that holds `bytes[start..end]`.
pub fn copy_range(bytes: &[u8], start: usize, end: usize) -> (out: Vec<u8>)
    requires
        start <= end <= bytes.len(),
    ensures
        out@ == bytes@.subrange(start as int, end as int),
{
    let mut out: Vec<u8> = Vec::new();
    let mut i: usize = start;
    while i < end
        invariant
            start <= i <= end <= bytes.len(),
            out@ == bytes@.subrange(start as int, i as int),
        decreases end - i,
    {
        out.push(bytes[i]);
        assert(bytes@.subrange(start as int, i + 1) =~= bytes@.subrange(start as int, i as int).push(
            bytes@[i as int],
        ));
        i = i + 1;
    }
    out
}

/// A fresh buffer that holds `bytes`.
pub fn copy_bytes(bytes: &[u8]) -> (out: Vec<u8>)
    ensures
        out@ == bytes@,
{
    let out: Vec<u8> = copy_range(bytes, 0, bytes.len());
    assert(bytes@.subrange(0, bytes.len() as int) =~= bytes@);
    out
}

} // verus!
