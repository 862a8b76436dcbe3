//! Little-endian byte encodings of the fixed-width integers used by the
//! frame and its header fields.

use vstd::prelude::*;

verus! {

/// The eight little-endian bytes of a 64-bit value.
pub open spec fn le64(n: u64) -> Seq<u8> {
    seq![
        (n % 256) as u8,
        ((n / 256) % 256) as u8,
        ((n / 65536) % 256) as u8,
        ((n / 16777216) % 256) as u8,
        ((n / 4294967296) % 256) as u8,
        ((n / 1099511627776) % 256) as u8,
        ((n / 281474976710656) % 256) as u8,
        ((n / 72057594037927936) % 256) as u8,
    ]
}

/// The value read back from eight little-endian bytes.
pub open spec fn le64_val(s: Seq<u8>) -> u64
    recommends
        s.len() == 8,
{
    (s[0] + s[1] * 256 + s[2] * 65536 + s[3] * 16777216 + s[4] * 4294967296
        + s[5] * 1099511627776 + s[6] * 281474976710656 + s[7] * 72057594037927936) as u64
}

/// The four little-endian bytes of a 32-bit value.
pub open spec fn le32(n: u32) -> Seq<u8> {
    seq![
        (n % 256) as u8,
        ((n / 256) % 256) as u8,
        ((n / 65536) % 256) as u8,
        ((n / 16777216) % 256) as u8,
    ]
}

/// The value read back from four little-endian bytes.
pub open spec fn le32_val(s: Seq<u8>) -> u32
    recommends
        s.len() == 4,
{
    (s[0] + s[1] * 256 + s[2] * 65536 + s[3] * 16777216) as u32
}

/// Reading the eight bytes of `le64(n)` gives `n` back.
pub proof fn lemma_le64_roundtrip(n: u64)
    ensures
        le64_val(le64(n)) == n,
{
    assert((n % 256) + ((n / 256) % 256) * 256 + ((n / 65536) % 256) * 65536 + ((n / 16777216)
        % 256) * 16777216 + ((n / 4294967296) % 256) * 4294967296 + ((n / 1099511627776) % 256)
        * 1099511627776 + ((n / 281474976710656) % 256) * 281474976710656 + ((n
        / 72057594037927936) % 256) * 72057594037927936 == n) by (bit_vector);
}

/// Two values with the same eight-byte encoding are equal.
pub proof fn lemma_le64_injective(a: u64, b: u64)
    requires
        le64(a) == le64(b),
    ensures
        a == b,
{
    lemma_le64_roundtrip(a);
    lemma_le64_roundtrip(b);
}

/// Reading the four bytes of `le32(n)` gives `n` back.
pub proof fn lemma_le32_roundtrip(n: u32)
    ensures
        le32_val(le32(n)) == n,
{
    assert((n % 256) + ((n / 256) % 256) * 256 + ((n / 65536) % 256) * 65536 + ((n / 16777216)
        % 256) * 16777216 == n) by (bit_vector);
}

/// Appends `le64(n)` to a byte buffer.
pub fn push_le64(buf: &mut Vec<u8>, n: u64)
    ensures
        final(buf)@ == old(buf)@ + le64(n),
{
    buf.push((n % 256) as u8);
    buf.push(((n / 256) % 256) as u8);
    buf.push(((n / 65536) % 256) as u8);
    buf.push(((n / 16777216) % 256) as u8);
    buf.push(((n / 4294967296) % 256) as u8);
    buf.push(((n / 1099511627776) % 256) as u8);
    buf.push(((n / 281474976710656) % 256) as u8);
    buf.push(((n / 72057594037927936) % 256) as u8);
    proof {
        assert(buf@ =~= old(buf)@ + le64(n));
    }
}

/// Appends `le32(n)` to a byte buffer.
pub fn push_le32(buf: &mut Vec<u8>, n: u32)
    ensures
        final(buf)@ == old(buf)@ + le32(n),
{
    buf.push((n % 256) as u8);
    buf.push(((n / 256) % 256) as u8);
    buf.push(((n / 65536) % 256) as u8);
    buf.push(((n / 16777216) % 256) as u8);
    proof {
        assert(buf@ =~= old(buf)@ + le32(n));
    }
}

/// Reads the 64-bit value encoded at `pos`; the encoding of the result is
/// exactly the eight bytes read.
pub fn read_le64(bytes: &[u8], pos: usize) -> (r: u64)
    requires
        pos + 8 <= bytes@.len(),
    ensures
        le64(r) == bytes@.subrange(pos as int, pos as int + 8),
        r == le64_val(bytes@.subrange(pos as int, pos as int + 8)),
{
    let b0 = bytes[pos] as u64;
    let b1 = bytes[pos + 1] as u64;
    let b2 = bytes[pos + 2] as u64;
    let b3 = bytes[pos + 3] as u64;
    let b4 = bytes[pos + 4] as u64;
    let b5 = bytes[pos + 5] as u64;
    let b6 = bytes[pos + 6] as u64;
    let b7 = bytes[pos + 7] as u64;
    let r = b0 + b1 * 256 + b2 * 65536 + b3 * 16777216 + b4 * 4294967296 + b5 * 1099511627776 + b6
        * 281474976710656 + b7 * 72057594037927936;
    proof {
        let s = bytes@.subrange(pos as int, pos as int + 8);
        assert(r == le64_val(s));
        let c0 = s[0] as u64;
        let c1 = s[1] as u64;
        let c2 = s[2] as u64;
        let c3 = s[3] as u64;
        let c4 = s[4] as u64;
        let c5 = s[5] as u64;
        let c6 = s[6] as u64;
        let c7 = s[7] as u64;
        let v = (c0 + c1 * 256 + c2 * 65536 + c3 * 16777216 + c4 * 4294967296 + c5 * 1099511627776
            + c6 * 281474976710656 + c7 * 72057594037927936) as u64;
        assert(c0 < 256 && c1 < 256 && c2 < 256 && c3 < 256 && c4 < 256 && c5 < 256 && c6 < 256
            && c7 < 256);
        assert((v % 256) == c0 && ((v / 256) % 256) == c1 && ((v / 65536) % 256) == c2 && ((v
            / 16777216) % 256) == c3 && ((v / 4294967296) % 256) == c4 && ((v / 1099511627776)
            % 256) == c5 && ((v / 281474976710656) % 256) == c6 && ((v / 72057594037927936) % 256)
            == c7) by (bit_vector)
            requires
                c0 < 256 && c1 < 256 && c2 < 256 && c3 < 256 && c4 < 256 && c5 < 256 && c6 < 256
                    && c7 < 256 && v == (c0 + c1 * 256 + c2 * 65536 + c3 * 16777216 + c4
                    * 4294967296 + c5 * 1099511627776 + c6 * 281474976710656 + c7
                    * 72057594037927936) as u64,
        ;
        assert(le64(v) =~= s);
    }
    r
}

/// Reads the 32-bit value encoded at `pos`; the encoding of the result is
/// exactly the four bytes read.
pub fn read_le32(bytes: &[u8], pos: usize) -> (r: u32)
    requires
        pos + 4 <= bytes@.len(),
    ensures
        le32(r) == bytes@.subrange(pos as int, pos as int + 4),
        r == le32_val(bytes@.subrange(pos as int, pos as int + 4)),
{
    let b0 = bytes[pos] as u32;
    let b1 = bytes[pos + 1] as u32;
    let b2 = bytes[pos + 2] as u32;
    let b3 = bytes[pos + 3] as u32;
    let r = b0 + b1 * 256 + b2 * 65536 + b3 * 16777216;
    proof {
        let s = bytes@.subrange(pos as int, pos as int + 4);
        assert(r == le32_val(s));
        let c0 = s[0] as u32;
        let c1 = s[1] as u32;
        let c2 = s[2] as u32;
        let c3 = s[3] as u32;
        let v = (c0 + c1 * 256 + c2 * 65536 + c3 * 16777216) as u32;
        assert(c0 < 256 && c1 < 256 && c2 < 256 && c3 < 256);
        assert((v % 256) == c0 && ((v / 256) % 256) == c1 && ((v / 65536) % 256) == c2 && ((v
            / 16777216) % 256) == c3) by (bit_vector)
            requires
                c0 < 256 && c1 < 256 && c2 < 256 && c3 < 256 && v == (c0 + c1 * 256 + c2 * 65536
                    + c3 * 16777216) as u32,
        ;
        assert(le32(v) =~= s);
    }
    r
}

} // verus!
