use vstd::prelude::*;

use crate::types::BlockHash;

verus! {

// ---------------------------------------------------------------------------
// Little-endian 32-bit integers (the scalar fields of the consensus encoding).
// ---------------------------------------------------------------------------

/// The four little-endian bytes of a 32-bit integer.
pub open spec fn le32_bytes(n: u32) -> Seq<u8> {
    seq![
        (n % 256) as u8,
        ((n / 256) % 256) as u8,
        ((n / 65536) % 256) as u8,
        ((n / 16777216) % 256) as u8,
    ]
}

/// The integer read from four little-endian bytes.
pub open spec fn le32_value(b: Seq<u8>) -> u32
    recommends
        b.len() == 4,
{
    (b[0] + b[1] * 256 + b[2] * 65536 + b[3] * 16777216) as u32
}

/// Reading back the four little-endian bytes of an integer gives the integer.
pub proof fn lemma_le32_round_trip(n: u32)
    ensures
        le32_value(le32_bytes(n)) == n,
{
    assert(n % 256 + (n / 256) % 256 * 256 + (n / 65536) % 256 * 65536 + (n / 16777216) % 256
        * 16777216 == n) by (bit_vector);
}

/// Appends the four little-endian bytes of an integer.
pub fn push_le32(out: &mut Vec<u8>, n: u32)
    ensures
        final(out)@ == old(out)@ + le32_bytes(n),
{
    out.push((n % 256) as u8);
    out.push(((n / 256) % 256) as u8);
    out.push(((n / 65536) % 256) as u8);
    out.push(((n / 16777216) % 256) as u8);
    proof {
        assert(out@ =~= old(out)@ + le32_bytes(n));
    }
}

/// Reads the integer stored in four little-endian bytes at an offset.
pub fn read_le32(b: &Vec<u8>, off: usize) -> (r: u32)
    requires
        off + 4 <= b@.len(),
    ensures
        r == le32_value(b@.subrange(off as int, off as int + 4)),
{
    let n = b.len();
    let b0 = b[off] as u32;
    let b1 = b[off + 1] as u32;
    let b2 = b[off + 2] as u32;
    let b3 = b[off + 3] as u32;
    b0 + b1 * 256 + b2 * 65536 + b3 * 16777216
}

// ---------------------------------------------------------------------------
// 32-byte fields.
// ---------------------------------------------------------------------------

/// Appends a 32-byte value.
pub fn push_bytes32(out: &mut Vec<u8>, a: &[u8; 32])
    ensures
        final(out)@ == old(out)@ + a@,
{
    let mut i: usize = 0;
    while i < 32
        invariant
            i <= 32,
            out@ == old(out)@ + a@.subrange(0, i as int),
        decreases 32 - i,
    {
        out.push(a[i]);
        proof {
            assert(out@ =~= old(out)@ + a@.subrange(0, i + 1 as int));
        }
        i += 1;
    }
    proof {
        assert(a@.subrange(0, 32) =~= a@);
    }
}

/// Reads the 32-byte value stored at an offset.
pub fn read_bytes32(b: &Vec<u8>, off: usize) -> (r: [u8; 32])
    requires
        off + 32 <= b@.len(),
    ensures
        r@ == b@.subrange(off as int, off as int + 32),
{
    let n = b.len();
    let mut out: [u8; 32] = [0u8; 32];
    let mut i: usize = 0;
    while i < 32
        invariant
            i <= 32,
            off + 32 <= b@.len(),
            n == b@.len(),
            out@.len() == 32,
            forall|j: int| 0 <= j < i ==> out@[j] == b@[off + j],
        decreases 32 - i,
    {
        out[i] = b[off + i];
        i += 1;
    }
    proof {
        assert(out@ =~= b@.subrange(off as int, off as int + 32));
    }
    out
}

// ---------------------------------------------------------------------------
// Block headers in the Bitcoin consensus encoding.
// ---------------------------------------------------------------------------

/// A block header: the six consensus-encoded fields.
#[derive(Clone, Copy, Debug)]
pub struct BlockHeader {
    pub version: u32,
    pub prev_blockhash: BlockHash,
    pub merkle_root: [u8; 32],
    pub time: u32,
    pub bits: u32,
    pub nonce: u32,
}

/// The canonical 80-byte consensus encoding of a block header.
pub open spec fn header_bytes(h: BlockHeader) -> Seq<u8> {
    le32_bytes(h.version) + h.prev_blockhash.bytes@ + h.merkle_root@ + le32_bytes(h.time)
        + le32_bytes(h.bits) + le32_bytes(h.nonce)
}

/// Serialises a block header into its 80-byte consensus encoding.
pub fn serialize_header(h: &BlockHeader) -> (r: Vec<u8>)
    ensures
        r@ == header_bytes(*h),
        r@.len() == 80,
{
    let mut out: Vec<u8> = Vec::new();
    push_le32(&mut out, h.version);
    push_bytes32(&mut out, &h.prev_blockhash.bytes);
    push_bytes32(&mut out, &h.merkle_root);
    push_le32(&mut out, h.time);
    push_le32(&mut out, h.bits);
    push_le32(&mut out, h.nonce);
    proof {
        assert(out@ =~= header_bytes(*h));
    }
    out
}

/// Deserialises a block header from its consensus encoding.  Exactly the
/// 80-byte inputs are accepted, and the accepted header re-encodes to the
/// input byte-for-byte.
pub fn deserialize_header(b: &Vec<u8>) -> (r: Option<BlockHeader>)
    ensures
        r is Some <==> b@.len() == 80,
        r matches Some(h) ==> header_bytes(h) == b@,
{
    if b.len() != 80 {
        return None;
    }
    let version = read_le32(b, 0);
    let prev = read_bytes32(b, 4);
    let merkle_root = read_bytes32(b, 36);
    let time = read_le32(b, 68);
    let bits = read_le32(b, 72);
    let nonce = read_le32(b, 76);
    let h = BlockHeader {
        version,
        prev_blockhash: BlockHash { bytes: prev },
        merkle_root,
        time,
        bits,
        nonce,
    };
    proof {
        lemma_le32_bytes_of_value(b@.subrange(0, 4));
        lemma_le32_bytes_of_value(b@.subrange(68, 72));
        lemma_le32_bytes_of_value(b@.subrange(72, 76));
        lemma_le32_bytes_of_value(b@.subrange(76, 80));
        assert(header_bytes(h) =~= b@);
    }
    Some(h)
}

/// Writing back the integer read from four bytes gives the bytes.
pub proof fn lemma_le32_bytes_of_value(b: Seq<u8>)
    requires
        b.len() == 4,
    ensures
        le32_bytes(le32_value(b)) == b,
{
    let b0 = b[0];
    let b1 = b[1];
    let b2 = b[2];
    let b3 = b[3];
    let n = le32_value(b);
    assert(n == (b0 + b1 * 256 + b2 * 65536 + b3 * 16777216) as u32);
    assert({
        let m = (b0 + b1 * 256 + b2 * 65536 + b3 * 16777216) as u32;
        m % 256 == b0 && (m / 256) % 256 == b1 && (m / 65536) % 256 == b2 && (m / 16777216) % 256
            == b3
    }) by (bit_vector);
    assert(le32_bytes(n) =~= b);
}

/// Law: header serialisation round-trips — deserialising the encoding of any
/// header yields that header, and re-serialising an accepted buffer yields
/// the buffer.  The byte-level halves are stated by `serialize_header` and
/// `deserialize_header`; this lemma states that the encoding is injective,
/// which ties the two together.
pub proof fn lemma_header_encoding_injective(h1: BlockHeader, h2: BlockHeader)
    requires
        header_bytes(h1) == header_bytes(h2),
    ensures
        h1 == h2,
{
    let s1 = header_bytes(h1);
    let s2 = header_bytes(h2);
    assert(le32_bytes(h1.version) =~= s1.subrange(0, 4));
    assert(le32_bytes(h2.version) =~= s2.subrange(0, 4));
    lemma_le32_round_trip(h1.version);
    lemma_le32_round_trip(h2.version);
    assert(h1.prev_blockhash.bytes@ =~= s1.subrange(4, 36));
    assert(h2.prev_blockhash.bytes@ =~= s2.subrange(4, 36));
    assert(h1.prev_blockhash.bytes@ == h2.prev_blockhash.bytes@);
    assert(h1.merkle_root@ =~= s1.subrange(36, 68));
    assert(h2.merkle_root@ =~= s2.subrange(36, 68));
    assert(le32_bytes(h1.time) =~= s1.subrange(68, 72));
    assert(le32_bytes(h2.time) =~= s2.subrange(68, 72));
    lemma_le32_round_trip(h1.time);
    lemma_le32_round_trip(h2.time);
    assert(le32_bytes(h1.bits) =~= s1.subrange(72, 76));
    assert(le32_bytes(h2.bits) =~= s2.subrange(72, 76));
    lemma_le32_round_trip(h1.bits);
    lemma_le32_round_trip(h2.bits);
    assert(le32_bytes(h1.nonce) =~= s1.subrange(76, 80));
    assert(le32_bytes(h2.nonce) =~= s2.subrange(76, 80));
    lemma_le32_round_trip(h1.nonce);
    lemma_le32_round_trip(h2.nonce);
    vstd::array::axiom_array_ext_equal(h1.prev_blockhash.bytes, h2.prev_blockhash.bytes);
    vstd::array::axiom_array_ext_equal(h1.merkle_root, h2.merkle_root);
}

// ---------------------------------------------------------------------------
// Hexadecimal text.
// ---------------------------------------------------------------------------

/// The ASCII code of one lower-case hexadecimal digit (the value is below 16).
pub open spec fn hex_digit(d: u8) -> u8
    recommends
        d < 16,
{
    if d < 10 {
        (48 + d) as u8
    } else {
        (87 + d) as u8
    }
}

/// The lower-case hexadecimal ASCII encoding of a byte sequence: two digits
/// per byte, high nibble first.
pub open spec fn hex_bytes(s: Seq<u8>) -> Seq<u8> {
    Seq::new(
        2 * s.len(),
        |i: int|
            if i % 2 == 0 {
                hex_digit(s[i / 2] / 16)
            } else {
                hex_digit(s[i / 2] % 16)
            },
    )
}

/// Encodes bytes as lower-case hexadecimal ASCII.
pub fn hex_encode(b: &Vec<u8>) -> (r: Vec<u8>)
    ensures
        r@ == hex_bytes(b@),
{
    let mut out: Vec<u8> = Vec::new();
    let mut i: usize = 0;
    while i < b.len()
        invariant
            i <= b@.len(),
            out@ == hex_bytes(b@.subrange(0, i as int)),
        decreases b@.len() - i,
    {
        let hi = b[i] / 16;
        let lo = b[i] % 16;
        let hc = if hi < 10 {
            48 + hi
        } else {
            87 + hi
        };
        let lc = if lo < 10 {
            48 + lo
        } else {
            87 + lo
        };
        out.push(hc);
        out.push(lc);
        proof {
            assert(out@ =~= hex_bytes(b@.subrange(0, i + 1 as int)));
        }
        i += 1;
    }
    proof {
        assert(b@.subrange(0, b@.len() as int) =~= b@);
    }
    out
}

/// Whether an ASCII code is a hexadecimal digit (either case).
pub open spec fn is_hex_digit(c: u8) -> bool {
    (48 <= c && c <= 57) || (97 <= c && c <= 102) || (65 <= c && c <= 70)
}

/// The value of a hexadecimal digit.
pub open spec fn hex_val(c: u8) -> u8
    recommends
        is_hex_digit(c),
{
    if 48 <= c && c <= 57 {
        (c - 48) as u8
    } else if 97 <= c && c <= 102 {
        (c - 87) as u8
    } else {
        (c - 55) as u8
    }
}

/// Whether a byte sequence is well-formed hexadecimal text: even length,
/// every byte a digit.
pub open spec fn is_hex(s: Seq<u8>) -> bool {
    s.len() % 2 == 0 && forall|i: int| 0 <= i < s.len() ==> is_hex_digit(#[trigger] s[i])
}

/// The bytes encoded by well-formed hexadecimal text.
pub open spec fn hex_decoded(s: Seq<u8>) -> Seq<u8>
    recommends
        is_hex(s),
{
    Seq::new(s.len() / 2, |i: int| (hex_val(s[2 * i]) * 16 + hex_val(s[2 * i + 1])) as u8)
}

/// Decodes hexadecimal text; rejects exactly the ill-formed inputs.
pub fn hex_decode(s: &Vec<u8>) -> (r: Option<Vec<u8>>)
    ensures
        r is Some <==> is_hex(s@),
        r matches Some(v) ==> v@ == hex_decoded(s@),
{
    if s.len() % 2 != 0 {
        return None;
    }
    let mut out: Vec<u8> = Vec::new();
    let mut i: usize = 0;
    while i < s.len()
        invariant
            i % 2 == 0,
            i <= s@.len(),
            s@.len() % 2 == 0,
            forall|j: int| 0 <= j < i ==> is_hex_digit(#[trigger] s@[j]),
            out@.len() == i / 2,
            forall|j: int|
                0 <= j < i / 2 ==> out@[j] == (hex_val(s@[2 * j]) * 16 + hex_val(
                    s@[2 * j + 1],
                )) as u8,
        decreases s@.len() - i,
    {
        proof {
            assert(i + 1 < s@.len());
        }
        let hi = s[i];
        let lo = s[i + 1];
        let hv = if 48 <= hi && hi <= 57 {
            hi - 48
        } else if 97 <= hi && hi <= 102 {
            hi - 87
        } else if 65 <= hi && hi <= 70 {
            hi - 55
        } else {
            return None;
        };
        let lv = if 48 <= lo && lo <= 57 {
            lo - 48
        } else if 97 <= lo && lo <= 102 {
            lo - 87
        } else if 65 <= lo && lo <= 70 {
            lo - 55
        } else {
            return None;
        };
        out.push(hv * 16 + lv);
        i += 2;
    }
    proof {
        assert(out@ =~= hex_decoded(s@));
    }
    Some(out)
}

/// Decoding the hexadecimal encoding of any bytes gives the bytes back.
pub proof fn lemma_hex_round_trip(b: Seq<u8>)
    ensures
        is_hex(hex_bytes(b)),
        hex_decoded(hex_bytes(b)) == b,
{
    let s = hex_bytes(b);
    assert forall|i: int| 0 <= i < s.len() implies is_hex_digit(#[trigger] s[i]) by {
        let d = if i % 2 == 0 {
            b[i / 2] / 16
        } else {
            b[i / 2] % 16
        };
        assert(d < 16);
    }
    assert forall|i: int| 0 <= i < b.len() implies hex_decoded(s)[i] == b[i] by {
        let hi = b[i] / 16;
        let lo = b[i] % 16;
        assert(s[2 * i] == hex_digit(hi));
        assert(s[2 * i + 1] == hex_digit(lo));
        assert(hex_val(hex_digit(hi)) == hi);
        assert(hex_val(hex_digit(lo)) == lo);
        assert(hi * 16 + lo == b[i]);
    }
    assert(hex_decoded(s) =~= b);
}

// ---------------------------------------------------------------------------
// Decimal text.
// ---------------------------------------------------------------------------

/// The ASCII decimal digits of a natural number, most significant first.
pub open spec fn dec_bytes(n: nat) -> Seq<u8>
    decreases n,
{
    if n < 10 {
        seq![(48 + n) as u8]
    } else {
        dec_bytes(n / 10).push((48 + n % 10) as u8)
    }
}

/// Appends the decimal digits of a number.
pub fn push_decimal(out: &mut Vec<u8>, n: u64)
    ensures
        final(out)@ == old(out)@ + dec_bytes(n as nat),
    decreases n,
{
    if n < 10 {
        out.push(48 + (n as u8));
        proof {
            assert(out@ =~= old(out)@ + dec_bytes(n as nat));
        }
    } else {
        push_decimal(out, n / 10);
        out.push(48 + ((n % 10) as u8));
        proof {
            assert(out@ =~= old(out)@ + dec_bytes(n as nat));
        }
    }
}

} // verus!
