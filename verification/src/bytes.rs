//! Little-endian integer codecs, hexadecimal rendering and unsigned LEB128,
//! the primitive byte-level encodings the bundle format is built from.
use vstd::prelude::*;

verus! {

/// Value of four bytes read as a little-endian 32-bit integer.
pub open spec fn le_u32(s: Seq<u8>) -> u32
    recommends
        s.len() == 4,
{
    (s[0] + s[1] * 0x100 + s[2] * 0x10000 + s[3] * 0x1000000) as u32
}

/// Value of eight bytes read as a little-endian 64-bit integer.
pub open spec fn le_u64(s: Seq<u8>) -> u64
    recommends
        s.len() == 8,
{
    (s[0] + s[1] * 0x100 + s[2] * 0x10000 + s[3] * 0x1000000 + s[4] * 0x100000000 + s[5]
        * 0x10000000000 + s[6] * 0x1000000000000 + s[7] * 0x100000000000000) as u64
}

/// The four-byte little-endian encoding of a 32-bit integer.
pub open spec fn u32_le_bytes(v: u32) -> Seq<u8> {
    seq![
        (v % 0x100) as u8,
        ((v / 0x100) % 0x100) as u8,
        ((v / 0x10000) % 0x100) as u8,
        ((v / 0x1000000) % 0x100) as u8,
    ]
}

/// The eight-byte little-endian encoding of a 64-bit integer.
pub open spec fn u64_le_bytes(v: u64) -> Seq<u8> {
    seq![
        (v % 0x100) as u8,
        ((v / 0x100) % 0x100) as u8,
        ((v / 0x10000) % 0x100) as u8,
        ((v / 0x1000000) % 0x100) as u8,
        ((v / 0x100000000) % 0x100) as u8,
        ((v / 0x10000000000) % 0x100) as u8,
        ((v / 0x1000000000000) % 0x100) as u8,
        ((v / 0x100000000000000) % 0x100) as u8,
    ]
}

/// Reads a little-endian 32-bit integer at `pos`.
pub fn read_u32_le(data: &[u8], pos: usize) -> (r: u32)
    requires
        pos + 4 <= data@.len(),
    ensures
        r == le_u32(data@.subrange(pos as int, pos as int + 4)),
{
    let b0 = data[pos] as u32;
    let b1 = data[pos + 1] as u32;
    let b2 = data[pos + 2] as u32;
    let b3 = data[pos + 3] as u32;
    let r = b0 + b1 * 0x100 + b2 * 0x10000 + b3 * 0x1000000;
    proof {
        let s = data@.subrange(pos as int, pos as int + 4);
        assert(s[0] == data@[pos as int]);
        assert(s[1] == data@[pos as int + 1]);
        assert(s[2] == data@[pos as int + 2]);
        assert(s[3] == data@[pos as int + 3]);
    }
    r
}

/// Reads a little-endian 64-bit integer at `pos`.
pub fn read_u64_le(data: &[u8], pos: usize) -> (r: u64)
    requires
        pos + 8 <= data@.len(),
    ensures
        r == le_u64(data@.subrange(pos as int, pos as int + 8)),
{
    let b0 = data[pos] as u64;
    let b1 = data[pos + 1] as u64;
    let b2 = data[pos + 2] as u64;
    let b3 = data[pos + 3] as u64;
    let b4 = data[pos + 4] as u64;
    let b5 = data[pos + 5] as u64;
    let b6 = data[pos + 6] as u64;
    let b7 = data[pos + 7] as u64;
    let r = b0 + b1 * 0x100 + b2 * 0x10000 + b3 * 0x1000000 + b4 * 0x100000000 + b5
        * 0x10000000000 + b6 * 0x1000000000000 + b7 * 0x100000000000000;
    proof {
        let s = data@.subrange(pos as int, pos as int + 8);
        assert(s[0] == data@[pos as int]);
        assert(s[1] == data@[pos as int + 1]);
        assert(s[2] == data@[pos as int + 2]);
        assert(s[3] == data@[pos as int + 3]);
        assert(s[4] == data@[pos as int + 4]);
        assert(s[5] == data@[pos as int + 5]);
        assert(s[6] == data@[pos as int + 6]);
        assert(s[7] == data@[pos as int + 7]);
    }
    r
}

/// Appends the little-endian encoding of a 32-bit integer.
pub fn push_u32_le(out: &mut Vec<u8>, v: u32)
    ensures
        final(out)@ == old(out)@ + u32_le_bytes(v),
{
    out.push((v % 0x100) as u8);
    out.push((v / 0x100 % 0x100) as u8);
    out.push((v / 0x10000 % 0x100) as u8);
    out.push((v / 0x1000000 % 0x100) as u8);
    proof {
        assert(out@ =~= old(out)@ + u32_le_bytes(v));
    }
}

/// Appends the little-endian encoding of a 64-bit integer.
pub fn push_u64_le(out: &mut Vec<u8>, v: u64)
    ensures
        final(out)@ == old(out)@ + u64_le_bytes(v),
{
    out.push((v % 0x100) as u8);
    out.push((v / 0x100 % 0x100) as u8);
    out.push((v / 0x10000 % 0x100) as u8);
    out.push((v / 0x1000000 % 0x100) as u8);
    out.push((v / 0x100000000 % 0x100) as u8);
    out.push((v / 0x10000000000 % 0x100) as u8);
    out.push((v / 0x1000000000000 % 0x100) as u8);
    out.push((v / 0x100000000000000 % 0x100) as u8);
    proof {
        assert(out@ =~= old(out)@ + u64_le_bytes(v));
    }
}

/// A 32-bit integer survives the trip through its little-endian encoding.
pub proof fn lemma_u32_le_round_trip(v: u32)
    ensures
        le_u32(u32_le_bytes(v)) == v,
{
    assert(v % 0x100 + (v / 0x100 % 0x100) * 0x100 + (v / 0x10000 % 0x100) * 0x10000 + (v
        / 0x1000000 % 0x100) * 0x1000000 == v) by (bit_vector);
}

/// A 64-bit integer survives the trip through its little-endian encoding.
pub proof fn lemma_u64_le_round_trip(v: u64)
    ensures
        le_u64(u64_le_bytes(v)) == v,
{
    assert(v % 0x100 + (v / 0x100 % 0x100) * 0x100 + (v / 0x10000 % 0x100) * 0x10000 + (v
        / 0x1000000 % 0x100) * 0x1000000 + (v / 0x100000000 % 0x100) * 0x100000000 + (v
        / 0x10000000000 % 0x100) * 0x10000000000 + (v / 0x1000000000000 % 0x100) * 0x1000000000000
        + (v / 0x100000000000000 % 0x100) * 0x100000000000000 == v) by (bit_vector);
}

/// Appends a byte slice.
pub fn push_bytes(out: &mut Vec<u8>, s: &[u8])
    ensures
        final(out)@ == old(out)@ + s@,
{
    out.extend_from_slice(s);
}

/// Copies the byte range `a..b` out of a slice.
pub fn copy_range(data: &[u8], a: usize, b: usize) -> (r: Vec<u8>)
    requires
        a <= b <= data@.len(),
    ensures
        r@ == data@.subrange(a as int, b as int),
{
    let mut out: Vec<u8> = Vec::new();
    let mut i: usize = a;
    while i < b
        invariant
            a <= i <= b <= data@.len(),
            out@ == data@.subrange(a as int, i as int),
        decreases b - i,
    {
        out.push(data[i]);
        proof {
            assert(out@ =~= data@.subrange(a as int, i as int + 1));
        }
        i += 1;
    }
    out
}

/// The lowercase hexadecimal digit of a value below 16.
pub open spec fn hex_digit(d: u8) -> u8
    recommends
        d < 16,
{
    if d < 10 {
        (0x30 + d) as u8
    } else {
        (0x61 + d - 10) as u8
    }
}

/// `digits` lowercase hexadecimal digits of `v`, most significant first.
pub open spec fn hex_bytes(v: u64, digits: nat) -> Seq<u8>
    decreases digits,
{
    if digits == 0 {
        Seq::empty()
    } else {
        hex_bytes(v / 16, (digits - 1) as nat) + seq![hex_digit((v % 16) as u8)]
    }
}

fn hex_digit_of(d: u8) -> (r: u8)
    requires
        d < 16,
    ensures
        r == hex_digit(d),
{
    if d < 10 {
        0x30 + d
    } else {
        0x61 + d - 10
    }
}

/// Appends `digits` lowercase hexadecimal digits of `v`, most significant
/// first.
pub fn push_hex(out: &mut Vec<u8>, v: u64, digits: usize)
    ensures
        final(out)@ == old(out)@ + hex_bytes(v, digits as nat),
    decreases digits,
{
    if digits == 0 {
        proof {
            assert(out@ =~= out@ + hex_bytes(v, 0));
        }
    } else {
        push_hex(out, v / 16, digits - 1);
        out.push(hex_digit_of((v % 16) as u8));
        proof {
            assert(out@ =~= old(out)@ + hex_bytes(v, digits as nat));
        }
    }
}

/// The minimal unsigned LEB128 encoding of a 64-bit integer.
pub open spec fn leb_bytes(v: u64) -> Seq<u8>
    decreases v,
{
    if v < 0x80 {
        seq![v as u8]
    } else {
        seq![((v % 0x80) + 0x80) as u8] + leb_bytes(v / 0x80)
    }
}

/// Decodes an unsigned LEB128 value at `i`: the value and the count of bytes
/// it occupies.  Rejected: a truncated encoding, a redundant final byte, and
/// a value that does not fit in 64 bits.
pub open spec fn leb_decode(s: Seq<u8>, i: int) -> Option<(u64, int)>
    decreases s.len() - i,
{
    if i < 0 || i >= s.len() {
        None
    } else if s[i] < 0x80 {
        Some((s[i] as u64, 1))
    } else {
        match leb_decode(s, i + 1) {
            Option::None => None,
            Option::Some((v, n)) => if v == 0 {
                None
            } else if (s[i] - 0x80) + v * 0x80 <= u64::MAX {
                Some((((s[i] - 0x80) + v * 0x80) as u64, n + 1))
            } else {
                None
            },
        }
    }
}

/// Reads an unsigned LEB128 value at `pos`, with the count of bytes it
/// occupies.
pub fn read_leb128(data: &[u8], pos: usize) -> (r: Option<(u64, usize)>)
    requires
        pos <= data@.len(),
    ensures
        match r {
            Some(p) => leb_decode(data@, pos as int) == Some((p.0, p.1 as int)) && pos + p.1
                <= data@.len(),
            None => leb_decode(data@, pos as int) is None,
        },
    decreases data@.len() - pos,
{
    if pos >= data.len() {
        return None;
    }
    let b = data[pos];
    if b < 0x80 {
        Some((b as u64, 1))
    } else {
        match read_leb128(data, pos + 1) {
            None => None,
            Some((v, n)) => {
                let low = (b - 0x80) as u64;
                if v == 0 {
                    None
                } else if v <= (u64::MAX - low) / 0x80 {
                    proof {
                        assert(v * 0x80 <= u64::MAX - low) by (nonlinear_arith)
                            requires
                                v <= (u64::MAX - low) / 0x80,
                                low < 0x80,
                        ;
                    }
                    Some((low + v * 0x80, n + 1))
                } else {
                    proof {
                        assert(low + v * 0x80 > u64::MAX) by (nonlinear_arith)
                            requires
                                v > (u64::MAX - low) / 0x80,
                                low < 0x80,
                        ;
                    }
                    None
                }
            },
        }
    }
}

/// Appends the minimal unsigned LEB128 encoding of `v`.
pub fn write_leb128(out: &mut Vec<u8>, v: u64)
    ensures
        final(out)@ == old(out)@ + leb_bytes(v),
{
    let mut x: u64 = v;
    while x >= 0x80
        invariant
            old(out)@ + leb_bytes(v) == out@ + leb_bytes(x),
        decreases x,
    {
        out.push((x % 0x80 + 0x80) as u8);
        proof {
            assert(old(out)@ + leb_bytes(v) =~= out@ + leb_bytes(x / 0x80));
        }
        x = x / 0x80;
    }
    out.push(x as u8);
    proof {
        assert(old(out)@ + leb_bytes(v) =~= out@);
    }
}

/// A value decodes back from its minimal LEB128 encoding wherever that
/// encoding stands in a byte stream.
pub proof fn lemma_leb_round_trip(s: Seq<u8>, i: int, v: u64)
    requires
        0 <= i,
        i + leb_bytes(v).len() <= s.len(),
        s.subrange(i, i + leb_bytes(v).len()) == leb_bytes(v),
    ensures
        leb_decode(s, i) == Some((v, leb_bytes(v).len() as int)),
    decreases v,
{
    if v < 0x80 {
        assert(s[i] == leb_bytes(v)[0]);
    } else {
        assert(s[i] == leb_bytes(v)[0]);
        let rest = leb_bytes(v / 0x80);
        assert(s.subrange(i + 1, i + 1 + rest.len()) =~= rest) by {
            assert forall|j: int| 0 <= j < rest.len() implies s.subrange(
                i + 1,
                i + 1 + rest.len(),
            )[j] == rest[j] by {
                assert(s.subrange(i, i + leb_bytes(v).len())[j + 1] == leb_bytes(v)[j + 1]);
            }
        }
        lemma_leb_round_trip(s, i + 1, v / 0x80);
        assert(v / 0x80 >= 1);
        assert(v % 0x80 + (v / 0x80) * 0x80 == v) by (nonlinear_arith);
        assert(s[i] >= 0x80);
        assert((s[i] - 0x80) + (v / 0x80) * 0x80 == v);
    }
}

} // verus!
