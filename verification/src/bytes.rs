//! Fixed-width unsigned integers stored in a byte buffer, in either byte order.

use vstd::prelude::*;

verus! {

/// The 16-bit value stored at `off` in `buf`: big-endian when `big_endian`, else little-endian.
pub open spec fn u16_at(buf: Seq<u8>, off: int, big_endian: bool) -> u16 {
    if big_endian {
        (buf[off] * 0x100 + buf[off + 1]) as u16
    } else {
        (buf[off + 1] * 0x100 + buf[off]) as u16
    }
}

/// The 32-bit value stored at `off` in `buf`: big-endian when `big_endian`, else little-endian.
pub open spec fn u32_at(buf: Seq<u8>, off: int, big_endian: bool) -> u32 {
    if big_endian {
        (buf[off] * 0x100_0000 + buf[off + 1] * 0x1_0000 + buf[off + 2] * 0x100 + buf[off + 3]) as u32
    } else {
        (buf[off + 3] * 0x100_0000 + buf[off + 2] * 0x1_0000 + buf[off + 1] * 0x100 + buf[off]) as u32
    }
}

/// The 64-bit value stored at `off` in `buf`: big-endian when `big_endian`, else little-endian.
pub open spec fn u64_at(buf: Seq<u8>, off: int, big_endian: bool) -> u64 {
    if big_endian {
        (u32_at(buf, off, true) * 0x1_0000_0000 + u32_at(buf, off + 4, true)) as u64
    } else {
        (u32_at(buf, off + 4, false) * 0x1_0000_0000 + u32_at(buf, off, false)) as u64
    }
}

/// `n` rounded up to the next multiple of four (the padding of pcapng fields).
pub open spec fn round_up4(n: int) -> int {
    (n + 3) / 4 * 4
}

/// Reads the 16-bit value at `off`.
pub fn read_u16(buf: &[u8], off: usize, big_endian: bool) -> (v: u16)
    requires
        off + 2 <= buf.len(),
    ensures
        v == u16_at(buf@, off as int, big_endian),
{
    let (hi, lo) = if big_endian {
        (buf[off], buf[off + 1])
    } else {
        (buf[off + 1], buf[off])
    };
    let v = ((hi as u16) << 8) | (lo as u16);
    assert(v == hi * 0x100 + lo) by (bit_vector)
        requires
            v == ((hi as u16) << 8) | (lo as u16),
    ;
    v
}

/// Reads the 32-bit value at `off`.
pub fn read_u32(buf: &[u8], off: usize, big_endian: bool) -> (v: u32)
    requires
        off + 4 <= buf.len(),
    ensures
        v == u32_at(buf@, off as int, big_endian),
{
    let (b0, b1, b2, b3) = if big_endian {
        (buf[off], buf[off + 1], buf[off + 2], buf[off + 3])
    } else {
        (buf[off + 3], buf[off + 2], buf[off + 1], buf[off])
    };
    let v = ((b0 as u32) << 24) | ((b1 as u32) << 16) | ((b2 as u32) << 8) | (b3 as u32);
    assert(v == b0 * 0x100_0000 + b1 * 0x1_0000 + b2 * 0x100 + b3) by (bit_vector)
        requires
            v == ((b0 as u32) << 24) | ((b1 as u32) << 16) | ((b2 as u32) << 8) | (b3 as u32),
    ;
    v
}

/// Reads the 64-bit value at `off`.
pub fn read_u64(buf: &[u8], off: usize, big_endian: bool) -> (v: u64)
    requires
        off + 8 <= buf.len(),
    ensures
        v == u64_at(buf@, off as int, big_endian),
{
    let first = read_u32(buf, off, big_endian);
    let second = read_u32(buf, off + 4, big_endian);
    let (hi, lo) = if big_endian {
        (first, second)
    } else {
        (second, first)
    };
    let v = ((hi as u64) << 32) | (lo as u64);
    assert(v == hi * 0x1_0000_0000 + lo) by (bit_vector)
        requires
            v == ((hi as u64) << 32) | (lo as u64),
    ;
    v
}

/// `len` rounded up to a multiple of four, computed as `(len + 3) & !3`.
pub fn padded_len(len: u32) -> (p: u32)
    requires
        len <= 0xffff_fffc,
    ensures
        p == round_up4(len as int),
        p % 4 == 0,
        len <= p < len + 4,
{
    let p = (len + 3) & !3u32;
    assert(p == (len + 3) / 4 * 4 && p % 4 == 0 && len <= p && p < len + 4) by (bit_vector)
        requires
            len <= 0xffff_fffc,
            p == ((len + 3) as u32) & !3u32,
    ;
    p
}

/// The two bytes of `x`, most significant first when `big_endian`.
pub open spec fn u16_bytes(x: u16, big_endian: bool) -> Seq<u8> {
    let hi = (x >> 8) as u8;
    let lo = (x & 0xff) as u8;
    if big_endian {
        seq![hi, lo]
    } else {
        seq![lo, hi]
    }
}

/// The four bytes of `x`, most significant first when `big_endian`.
pub open spec fn u32_bytes(x: u32, big_endian: bool) -> Seq<u8> {
    let b0 = (x >> 24) as u8;
    let b1 = ((x >> 16) & 0xff) as u8;
    let b2 = ((x >> 8) & 0xff) as u8;
    let b3 = (x & 0xff) as u8;
    if big_endian {
        seq![b0, b1, b2, b3]
    } else {
        seq![b3, b2, b1, b0]
    }
}

/// The eight bytes of `x`, most significant first when `big_endian`.
pub open spec fn u64_bytes(x: u64, big_endian: bool) -> Seq<u8> {
    let hi = u32_bytes((x >> 32) as u32, big_endian);
    let lo = u32_bytes((x & 0xffff_ffff) as u32, big_endian);
    if big_endian {
        hi + lo
    } else {
        lo + hi
    }
}

/// A value written in either byte order is read back as itself in that order.
pub proof fn law_read_back_written(x16: u16, x32: u32, x64: u64, big_endian: bool)
    ensures
        u16_at(u16_bytes(x16, big_endian), 0, big_endian) == x16,
        u32_at(u32_bytes(x32, big_endian), 0, big_endian) == x32,
        u64_at(u64_bytes(x64, big_endian), 0, big_endian) == x64,
{
    assert((((x16 >> 8) as u8) as int) * 0x100 + (((x16 & 0xff) as u8) as int) == x16)
        by (bit_vector);
    lemma_u32_from_bytes(x32);
    let hi = (x64 >> 32) as u32;
    let lo = (x64 & 0xffff_ffff) as u32;
    lemma_u32_from_bytes(hi);
    lemma_u32_from_bytes(lo);
    assert((hi as int) * 0x1_0000_0000 + (lo as int) == x64) by (bit_vector)
        requires
            hi == (x64 >> 32) as u32,
            lo == (x64 & 0xffff_ffff) as u32,
    ;
    let b = u64_bytes(x64, big_endian);
    if big_endian {
        assert(u32_bytes(hi, true) =~= b.subrange(0, 4));
        assert(u32_at(b, 0, true) == u32_at(u32_bytes(hi, true), 0, true));
        assert(u32_at(b, 4, true) == u32_at(u32_bytes(lo, true), 0, true));
    } else {
        assert(u32_at(b, 0, false) == u32_at(u32_bytes(lo, false), 0, false));
        assert(u32_at(b, 4, false) == u32_at(u32_bytes(hi, false), 0, false));
    }
}

pub proof fn lemma_u32_from_bytes(x: u32)
    ensures
        u32_at(u32_bytes(x, true), 0, true) == x,
        u32_at(u32_bytes(x, false), 0, false) == x,
{
    assert((((x >> 24) as u8) as int) * 0x100_0000 + ((((x >> 16) & 0xff) as u8) as int) * 0x1_0000
        + ((((x >> 8) & 0xff) as u8) as int) * 0x100 + (((x & 0xff) as u8) as int) == x)
        by (bit_vector);
}

} // verus!
