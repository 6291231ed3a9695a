//! The mathematical model of a pcapng reader: its state as plain values, the
//! layout of each block as a function of its bytes, and what reading a capture
//! file does to the state.
//!
//! The reader holds the capture file's bytes and a position in them.  A read
//! of `n` bytes takes at most the bytes left, and is refused (-1) when `n`
//! exceeds the reader's 4096-byte block buffer.

use vstd::prelude::*;
use vstd::utf8::valid_utf8;
use vstd::utf8::decode_utf8;
use crate::bytes::u16_at;
use crate::bytes::u32_at;
use crate::bytes::u64_at;
use crate::bytes::round_up4;

verus! {

/// Size of the block buffer.
pub const PKT_BUFFER_LEN: usize = 4096;

/// Section header option codes.
pub const SHB_OP_COMMENT: u16 = 1;
pub const SHB_OP_HW: u16 = 2;
pub const SHB_OP_OS: u16 = 3;
pub const SHB_OP_USER_APP: u16 = 4;

/// Block types.
pub const SHB_INTF_DESC_BLOCK: u32 = 1;
pub const SHB_INTF_STATS_BLOCK: u32 = 5;
pub const SHB_ENH_PKT_BLOCK: u32 = 6;

/// Flags recording which section header options were seen.
pub const SHB_OPT_COMMENT: u32 = 0x00000001;
pub const SHB_OPT_HW: u32 = 0x00000002;
pub const SHB_OPT_OS: u32 = 0x00000004;
pub const SHB_OPT_USER_APP: u32 = 0x00000008;

/// Interface description block option codes.
pub const IDB_OPT_IFNAME: u16 = 2;
pub const IDB_OPT_TSRESOL: u16 = 9;
pub const IDB_OPT_OS: u16 = 12;

/// Interface statistics block option codes.
pub const ISB_OPT_COMMENT: u16 = 1;
pub const ISB_OPT_START_TIME: u16 = 2;
pub const ISB_OPT_END_TIME: u16 = 3;
pub const ISB_OPT_PKT_RECV: u16 = 4;
pub const ISB_OPT_PKT_DROP: u16 = 5;

/// An enhanced packet block.
#[verifier::ext_equal]
pub struct EpbView {
    pub intf_id: u32,
    pub ts_high: u32,
    pub ts_low: u32,
    pub captured_len: u32,
    pub original_len: u32,
    pub packet_data: Seq<u8>,
}

/// An interface statistics block.
#[verifier::ext_equal]
pub struct IsbView {
    pub intf_id: u32,
    pub timestamp: u64,
    pub comment: Seq<char>,
    pub start_time: u64,
    pub end_time: u64,
    pub pkts_rx: u64,
    pub pkts_dropped: u64,
}

/// The fixed part of the section header block.
pub struct ShbView {
    pub block_type: u32,
    pub total_len: u32,
    pub byte_order_magic: u32,
    pub major_version: u16,
    pub minor_version: u16,
    pub section_len: u64,
}

/// What the reader keeps of the last interface description block.
#[verifier::ext_equal]
pub struct IdbView {
    pub link_type: u16,
    pub snaplen: u32,
    pub ifname: Seq<char>,
    pub ts_resol: u16,
    pub os_str: Seq<char>,
}

/// The whole state of a reader.
#[verifier::ext_equal]
pub struct PcapngView {
    /// The capture file's bytes.
    pub input: Seq<u8>,
    /// How many of them have been read.
    pub input_pos: int,
    pub big_endian: bool,
    pub shb: ShbView,
    /// The section length read after an all-zero word ends the section
    /// header options.
    pub total_len: u32,
    pub shb_opts: u32,
    pub hw: Seq<u8>,
    pub os: Seq<u8>,
    pub application: Seq<u8>,
    pub comment: Seq<u8>,
    pub idb: IdbView,
    pub stats: IsbView,
}

pub open spec fn empty_epb() -> EpbView {
    EpbView {
        intf_id: 0,
        ts_high: 0,
        ts_low: 0,
        captured_len: 0,
        original_len: 0,
        packet_data: Seq::empty(),
    }
}

pub open spec fn empty_isb() -> IsbView {
    IsbView {
        intf_id: 0,
        timestamp: 0,
        comment: Seq::empty(),
        start_time: 0,
        end_time: 0,
        pkts_rx: 0,
        pkts_dropped: 0,
    }
}

pub open spec fn empty_shb() -> ShbView {
    ShbView {
        block_type: 0,
        total_len: 0,
        byte_order_magic: 0,
        major_version: 0,
        minor_version: 0,
        section_len: 0,
    }
}

/// A fresh reader: no input, every field zero or empty.
pub open spec fn initial_state() -> PcapngView {
    PcapngView {
        input: Seq::empty(),
        input_pos: 0,
        big_endian: false,
        shb: empty_shb(),
        total_len: 0,
        shb_opts: 0,
        hw: Seq::empty(),
        os: Seq::empty(),
        application: Seq::empty(),
        comment: Seq::empty(),
        idb: IdbView {
            link_type: 0,
            snaplen: 0,
            ifname: Seq::empty(),
            ts_resol: 0,
            os_str: Seq::empty(),
        },
        stats: empty_isb(),
    }
}

// ---------------------------------------------------------------------------
// Reading from the input.
// ---------------------------------------------------------------------------

/// What a read of `n` bytes returns: -1 when `n` exceeds the block buffer,
/// else the number of bytes still in the input, at most `n`.
pub open spec fn read_count(s: PcapngView, n: int) -> int {
    if n > PKT_BUFFER_LEN {
        -1
    } else if s.input_pos >= s.input.len() {
        0
    } else if n <= s.input.len() - s.input_pos {
        n
    } else {
        s.input.len() - s.input_pos
    }
}

/// The state after a read of `n` bytes: the position moves past the bytes read.
pub open spec fn after_read(s: PcapngView, n: int) -> PcapngView {
    let k = read_count(s, n);
    if k <= 0 {
        s
    } else {
        PcapngView { input_pos: s.input_pos + k, ..s }
    }
}

/// The next `k` bytes of the input.
pub open spec fn bytes_at(s: PcapngView, k: int) -> Seq<u8> {
    s.input.subrange(s.input_pos, s.input_pos + k)
}

/// A timestamp stored as its high 32 bits, then its low 32 bits.
pub open spec fn ts_at(b: Seq<u8>, off: int, big_endian: bool) -> u64 {
    (u32_at(b, off, big_endian) * 0x1_0000_0000 + u32_at(b, off + 4, big_endian)) as u64
}

/// Four bytes at `off` of `b` are `x0 x1 x2 x3`.
pub open spec fn has4(b: Seq<u8>, off: int, x0: u8, x1: u8, x2: u8, x3: u8) -> bool {
    b[off] == x0 && b[off + 1] == x1 && b[off + 2] == x2 && b[off + 3] == x3
}

/// The section header block's type field.
pub open spec fn is_shb_magic(b: Seq<u8>) -> bool {
    has4(b, 0, 0x0A, 0x0D, 0x0D, 0x0A)
}

/// The byte order magic as written by a big-endian writer.
pub open spec fn is_magic_be(b: Seq<u8>) -> bool {
    has4(b, 8, 0x1A, 0x2B, 0x3C, 0x4D)
}

/// The byte order magic as written by a little-endian writer.
pub open spec fn is_magic_le(b: Seq<u8>) -> bool {
    has4(b, 8, 0x4D, 0x3C, 0x2B, 0x1A)
}

// ---------------------------------------------------------------------------
// Section header options.
// ---------------------------------------------------------------------------

/// Section header options, read from the input after the header: each is a
/// four-byte word (code, then length) and its value padded to four bytes.
/// They end with the block's trailing length (result 1), an all-zero word
/// (result 0), or an error (-1): a short read, a value longer than the block
/// buffer, or a code other than comment, hardware, system and application.
#[verifier::opaque]
pub open spec fn shb_options(s: PcapngView) -> (PcapngView, int)
    decreases s.input.len() - s.input_pos,
{
    let s1 = after_read(s, 4);
    let w = bytes_at(s, 4);
    let big = s.big_endian;
    if read_count(s, 4) != 4 {
        (s1, -1)
    } else if u32_at(w, 0, big) == s.shb.total_len {
        (s1, 1)
    } else if has4(w, 0, 0, 0, 0, 0) {
        (s1, 0)
    } else {
        let code = u16_at(w, 0, big);
        let len = u16_at(w, 2, big);
        let padded = round_up4(len as int);
        let s2 = after_read(s1, padded);
        if read_count(s1, padded) != padded {
            (s2, -1)
        } else {
            let value = bytes_at(s1, len as int);
            if code == SHB_OP_HW {
                shb_options(PcapngView { hw: value, shb_opts: s2.shb_opts | SHB_OPT_HW, ..s2 })
            } else if code == SHB_OP_OS {
                shb_options(PcapngView { os: value, shb_opts: s2.shb_opts | SHB_OPT_OS, ..s2 })
            } else if code == SHB_OP_USER_APP {
                shb_options(
                    PcapngView {
                        application: value,
                        shb_opts: s2.shb_opts | SHB_OPT_USER_APP,
                        ..s2
                    },
                )
            } else if code == SHB_OP_COMMENT {
                shb_options(
                    PcapngView { comment: value, shb_opts: s2.shb_opts | SHB_OPT_COMMENT, ..s2 },
                )
            } else {
                (s2, -1)
            }
        }
    }
}

// ---------------------------------------------------------------------------
// Block bodies.  `b` is the body of a block: what follows its type and
// length, up to and with its trailing length.
// ---------------------------------------------------------------------------

/// The trailing length of a body repeats the block's total length.
pub open spec fn trailer_ok(b: Seq<u8>, big_endian: bool) -> bool {
    b.len() >= 4 && u32_at(b, b.len() - 4, big_endian) == b.len() + 8
}

/// The options of a body from `off` on: each a code, a length and the value
/// padded to four bytes, up to the trailing length, or up to the
/// end-of-options marker, which must stand right before the trailing length.  `decode` folds each value into the record, or refuses it.
pub open spec fn option_walk<A>(
    b: Seq<u8>,
    big_endian: bool,
    off: int,
    acc: A,
    decode: spec_fn(A, u16, Seq<u8>, bool) -> Option<A>,
) -> Option<A>
    decreases b.len() - off,
{
    let end = b.len() - 4;
    if off == end {
        Some(acc)
    } else if off < 0 || off + 4 > end {
        None
    } else {
        let code = u16_at(b, off, big_endian);
        let len = u16_at(b, off + 2, big_endian);
        let next = off + 4 + round_up4(len as int);
        if code == 0 && len == 0 {
            // the end-of-options marker stands right before the trailing length
            if off + 4 == end {
                Some(acc)
            } else {
                None
            }
        } else if next > end {
            None
        } else {
            match decode(acc, code, b.subrange(off + 4, off + 4 + len), big_endian) {
                Some(a) => option_walk(b, big_endian, next, a, decode),
                None => None,
            }
        }
    }
}

/// One interface description option: the name and the system must be UTF-8,
/// the time resolution is the value's first byte; other options are skipped.
pub open spec fn idb_option(f: IdbView, code: u16, v: Seq<u8>, big_endian: bool) -> Option<IdbView> {
    if code == IDB_OPT_IFNAME {
        if valid_utf8(v) {
            Some(IdbView { ifname: decode_utf8(v), ..f })
        } else {
            None
        }
    } else if code == IDB_OPT_TSRESOL {
        if v.len() >= 1 {
            Some(IdbView { ts_resol: v[0] as u16, ..f })
        } else {
            None
        }
    } else if code == IDB_OPT_OS {
        if valid_utf8(v) {
            Some(IdbView { os_str: decode_utf8(v), ..f })
        } else {
            None
        }
    } else {
        Some(f)
    }
}

pub open spec fn idb_decoder() -> spec_fn(IdbView, u16, Seq<u8>, bool) -> Option<IdbView> {
    |f: IdbView, code: u16, v: Seq<u8>, big: bool| idb_option(f, code, v, big)
}

/// One interface statistics option: the comment must be UTF-8, the start
/// and end times are timestamps and the counters 64-bit values, each of
/// eight bytes; any other option is refused.
pub open spec fn isb_option(f: IsbView, code: u16, v: Seq<u8>, big_endian: bool) -> Option<IsbView> {
    if code == ISB_OPT_COMMENT {
        if valid_utf8(v) {
            Some(IsbView { comment: decode_utf8(v), ..f })
        } else {
            None
        }
    } else if code == ISB_OPT_START_TIME || code == ISB_OPT_END_TIME || code == ISB_OPT_PKT_RECV
        || code == ISB_OPT_PKT_DROP {
        if v.len() != 8 {
            None
        } else if code == ISB_OPT_START_TIME {
            Some(IsbView { start_time: ts_at(v, 0, big_endian), ..f })
        } else if code == ISB_OPT_END_TIME {
            Some(IsbView { end_time: ts_at(v, 0, big_endian), ..f })
        } else if code == ISB_OPT_PKT_RECV {
            Some(IsbView { pkts_rx: u64_at(v, 0, big_endian), ..f })
        } else {
            Some(IsbView { pkts_dropped: u64_at(v, 0, big_endian), ..f })
        }
    } else {
        None
    }
}

pub open spec fn isb_decoder() -> spec_fn(IsbView, u16, Seq<u8>, bool) -> Option<IsbView> {
    |f: IsbView, code: u16, v: Seq<u8>, big: bool| isb_option(f, code, v, big)
}

/// An interface description body: link type, reserved, snap length, options.
pub open spec fn idb_body(b: Seq<u8>, big_endian: bool, f: IdbView) -> Option<IdbView> {
    if b.len() < 12 || !trailer_ok(b, big_endian) {
        None
    } else {
        option_walk(
            b,
            big_endian,
            8,
            IdbView { link_type: u16_at(b, 0, big_endian), snaplen: u32_at(b, 4, big_endian), ..f },
            idb_decoder(),
        )
    }
}

/// An interface statistics body: interface, timestamp, options.
pub open spec fn isb_body(b: Seq<u8>, big_endian: bool, f: IsbView) -> Option<IsbView> {
    if b.len() < 16 || !trailer_ok(b, big_endian) {
        None
    } else {
        option_walk(
            b,
            big_endian,
            12,
            IsbView { intf_id: u32_at(b, 0, big_endian), timestamp: ts_at(b, 4, big_endian), ..f },
            isb_decoder(),
        )
    }
}

/// An enhanced packet body: interface, timestamp, captured and wire
/// lengths, the captured bytes padded to four, then options (skipped).
pub open spec fn epb_body(b: Seq<u8>, big_endian: bool) -> Option<EpbView> {
    let cap = u32_at(b, 12, big_endian);
    if b.len() < 24 || !trailer_ok(b, big_endian) {
        None
    } else if 20 + round_up4(cap as int) > b.len() - 4 {
        None
    } else {
        Some(
            EpbView {
                intf_id: u32_at(b, 0, big_endian),
                ts_high: u32_at(b, 4, big_endian),
                ts_low: u32_at(b, 8, big_endian),
                captured_len: cap,
                original_len: u32_at(b, 16, big_endian),
                packet_data: b.subrange(20, 20 + cap),
            },
        )
    }
}

/// Decoding an enhanced packet body `b` into `e`, field by field: the result
/// code and what `e` then holds.  The five header fields are stored once the
/// body holds them; the captured bytes are appended once they lie inside the
/// body; the trailing length is checked last.
pub open spec fn epb_fill(e: EpbView, b: Seq<u8>, big_endian: bool) -> (int, EpbView) {
    if b.len() < 24 {
        (-1, e)
    } else {
        let cap = u32_at(b, 12, big_endian);
        let e1 = EpbView {
            intf_id: u32_at(b, 0, big_endian),
            ts_high: u32_at(b, 4, big_endian),
            ts_low: u32_at(b, 8, big_endian),
            captured_len: cap,
            original_len: u32_at(b, 16, big_endian),
            ..e
        };
        if 20 + round_up4(cap as int) > b.len() - 4 {
            (-1, e1)
        } else {
            let e2 = EpbView { packet_data: e.packet_data + b.subrange(20, 20 + cap), ..e1 };
            if trailer_ok(b, big_endian) {
                (0, e2)
            } else {
                (-1, e2)
            }
        }
    }
}

// ---------------------------------------------------------------------------
// Blocks.
// ---------------------------------------------------------------------------

/// An interface description block whose body has `n` bytes: 0 and its
/// fields, or -1 for a short read or a malformed body.
pub open spec fn idb_step(s: PcapngView, n: int) -> (PcapngView, int) {
    let s1 = after_read(s, n);
    if read_count(s, n) != n {
        (s1, -1)
    } else {
        match idb_body(bytes_at(s, n), s.big_endian, s.idb) {
            Some(f) => (PcapngView { idb: f, ..s1 }, 0),
            None => (s1, -1),
        }
    }
}

/// An interface statistics block whose body has `n` bytes.
pub open spec fn isb_step(s: PcapngView, n: int) -> (PcapngView, int) {
    let s1 = after_read(s, n);
    if read_count(s, n) != n {
        (s1, -1)
    } else {
        match isb_body(bytes_at(s, n), s.big_endian, s.stats) {
            Some(f) => (PcapngView { stats: f, ..s1 }, 0),
            None => (s1, -1),
        }
    }
}

/// An enhanced packet block whose body has `n` bytes, decoded into `e`: a
/// read that does not give all `n` bytes leaves `e` as it was and its count
/// is the result (-1 when `n` exceeds the block buffer, else the bytes that
/// were left, 0 at the end of the input); else as `epb_fill` decodes the body.
pub open spec fn epb_step(s: PcapngView, e: EpbView, n: int) -> (PcapngView, int, EpbView) {
    let s1 = after_read(s, n);
    if read_count(s, n) != n {
        (s1, read_count(s, n), e)
    } else {
        let (r, e2) = epb_fill(e, bytes_at(s, n), s.big_endian);
        (s1, r, e2)
    }
}

/// The blocks after the section header, each a type, a total length and a
/// body, up to the end of the input or a block of type zero (result 0), or
/// an error (-1): a short block header, an unknown type, a total length below
/// eight, or an interface description block that fails.  A packet block
/// that does not give 0 ends the reading with its result; one whose body is
/// missing altogether (the input ends after its type and length) gives 0 and
/// is handed out empty.  A
/// statistics block that fails is passed over.  The enhanced packet blocks
/// read are listed in order.
#[verifier::opaque]
pub open spec fn blocks(s: PcapngView) -> (PcapngView, int, Seq<EpbView>)
    decreases s.input.len() - s.input_pos,
{
    let r = read_count(s, 8);
    let s1 = after_read(s, 8);
    let w = bytes_at(s, 8);
    let big = s.big_endian;
    let name = u32_at(w, 0, big);
    let total = u32_at(w, 4, big);
    if r == 0 {
        (s1, 0, Seq::empty())
    } else if r != 8 {
        (s1, -1, Seq::empty())
    } else if name == 0 {
        (s1, 0, Seq::empty())
    } else if name != SHB_INTF_DESC_BLOCK && name != SHB_ENH_PKT_BLOCK && name
        != SHB_INTF_STATS_BLOCK {
        (s1, -1, Seq::empty())
    } else if total < 8 {
        (s1, -1, Seq::empty())
    } else if name == SHB_INTF_DESC_BLOCK {
        let (s2, res) = idb_step(s1, total - 8);
        if res != 0 {
            (s2, -1, Seq::empty())
        } else {
            blocks(s2)
        }
    } else if name == SHB_INTF_STATS_BLOCK {
        // a statistics block that fails does not stop the reading
        let (s2, res) = isb_step(s1, total - 8);
        blocks(s2)
    } else {
        let (s2, res, e) = epb_step(s1, empty_epb(), total - 8);
        if res != 0 {
            (s2, res, Seq::empty())
        } else {
            let (s3, r3, es) = blocks(s2);
            (s3, r3, seq![e] + es)
        }
    }
}

/// Reading a whole capture file `contents`: the section header block (its
/// type, byte order magic, length, version and section length), its options,
/// then the blocks.  The state after, the result code, and the enhanced
/// packet blocks read, in order.
pub open spec fn open_result(s: PcapngView, contents: Seq<u8>) -> (PcapngView, int, Seq<EpbView>) {
    let s0 = PcapngView { input: contents, input_pos: 0, ..s };
    let s1 = after_read(s0, 24);
    let b = bytes_at(s0, 24);
    if read_count(s0, 24) != 24 {
        (s1, -1, Seq::empty())
    } else if !is_shb_magic(b) {
        (s1, -1, Seq::empty())
    } else if !is_magic_be(b) && !is_magic_le(b) {
        (s1, -1, Seq::empty())
    } else {
        let big = is_magic_be(b);
        let s2 = PcapngView {
            big_endian: big,
            shb: ShbView {
                total_len: u32_at(b, 4, big),
                major_version: u16_at(b, 12, big),
                minor_version: u16_at(b, 14, big),
                section_len: u64_at(b, 16, big),
                ..s1.shb
            },
            ..s1
        };
        let (s3, res) = shb_options(s2);
        if res == -1 {
            (s3, -1, Seq::empty())
        } else if res == 0 {
            let s4 = after_read(s3, 4);
            if read_count(s3, 4) != 4 {
                (s4, -1, Seq::empty())
            } else {
                blocks(PcapngView { total_len: u32_at(bytes_at(s3, 4), 0, big), ..s4 })
            }
        } else {
            blocks(s3)
        }
    }
}

} // verus!
