//! Properties of the reader that hold of every capture file.

use vstd::prelude::*;
use crate::bytes::u16_at;
use crate::bytes::u32_at;
use crate::bytes::u64_at;
use crate::model::PcapngView;
use crate::model::ShbView;
use crate::model::after_read;
use crate::model::read_count;
use crate::model::bytes_at;
use crate::model::shb_options;
use crate::model::epb_step;
use crate::model::idb_step;
use crate::model::isb_step;
use crate::model::blocks;
use crate::model::open_result;
use crate::model::is_magic_be;
use crate::model::is_magic_le;
use crate::model::is_shb_magic;
use crate::model::EpbView;
use crate::model::trailer_ok;
use crate::model::IdbView;
use crate::model::IsbView;
use crate::model::option_walk;
use crate::model::idb_option;
use crate::model::isb_option;
use crate::model::idb_decoder;
use crate::model::isb_decoder;
use crate::model::ts_at;
use crate::bytes::round_up4;

verus! {

/// The input stays, and the position in it moves forward within it.
pub open spec fn input_moves_on(a: PcapngView, b: PcapngView) -> bool {
    &&& b.input == a.input
    &&& a.input_pos <= b.input_pos <= b.input.len()
    &&& b.big_endian == a.big_endian
}

proof fn lemma_after_read(s: PcapngView, n: int)
    requires
        n >= 0,
        0 <= s.input_pos <= s.input.len(),
    ensures
        input_moves_on(s, after_read(s, n)),
{
}

proof fn lemma_shb_options(s: PcapngView)
    requires
        0 <= s.input_pos <= s.input.len(),
    ensures
        input_moves_on(s, shb_options(s).0),
        shb_options(s).1 == -1 || shb_options(s).1 == 0 || shb_options(s).1 == 1,
    decreases s.input.len() - s.input_pos,
{
    reveal(shb_options);
    let s1 = after_read(s, 4);
    let w = bytes_at(s, 4);
    let big = s.big_endian;
    if read_count(s, 4) == 4 && u32_at(w, 0, big) != s.shb.total_len && !crate::model::has4(
        w,
        0,
        0,
        0,
        0,
        0,
    ) {
        let len = u16_at(w, 2, big);
        let padded = crate::bytes::round_up4(len as int);
        let s2 = after_read(s1, padded);
        if read_count(s1, padded) == padded {
            let value = bytes_at(s1, len as int);
            lemma_shb_options(
                PcapngView { hw: value, shb_opts: s2.shb_opts | crate::model::SHB_OPT_HW, ..s2 },
            );
            lemma_shb_options(
                PcapngView { os: value, shb_opts: s2.shb_opts | crate::model::SHB_OPT_OS, ..s2 },
            );
            lemma_shb_options(
                PcapngView {
                    application: value,
                    shb_opts: s2.shb_opts | crate::model::SHB_OPT_USER_APP,
                    ..s2
                },
            );
            lemma_shb_options(
                PcapngView {
                    comment: value,
                    shb_opts: s2.shb_opts | crate::model::SHB_OPT_COMMENT,
                    ..s2
                },
            );
        }
    }
}

/// Every packet block handed out holds as many bytes of packet data as its
/// captured length says; the result is -1 or a count below the buffer size;
/// and the reader stays within its input.
proof fn lemma_blocks(s: PcapngView)
    requires
        0 <= s.input_pos <= s.input.len(),
    ensures
        forall|i: int|
            0 <= i < blocks(s).2.len() ==> #[trigger] blocks(s).2[i].packet_data.len()
                == blocks(s).2[i].captured_len,
        -1 <= blocks(s).1 < crate::model::PKT_BUFFER_LEN,
        input_moves_on(s, blocks(s).0),
    decreases s.input.len() - s.input_pos,
{
    reveal(blocks);
    let s1 = after_read(s, 8);
    let w = bytes_at(s, 8);
    let big = s.big_endian;
    let total = u32_at(w, 4, big);
    if read_count(s, 8) == 8 && total >= 8 {
        let n = total - 8;
        lemma_after_read(s1, n);
        let (s2, r2) = idb_step(s1, n);
        if r2 == 0 {
            lemma_blocks(s2);
        }
        let (s3, r3) = isb_step(s1, n);
        lemma_blocks(s3);
        let (s4, r4, e) = epb_step(s1, crate::model::empty_epb(), n);
        if r4 == 0 {
            lemma_blocks(s4);
            let es = blocks(s4).2;
            let b = bytes_at(s1, n);
            if read_count(s1, n) == n {
                assert(e.packet_data =~= Seq::<u8>::empty() + b.subrange(
                    20,
                    20 + e.captured_len,
                ));
            }
            assert(e.packet_data.len() == e.captured_len);
            assert forall|i: int| 0 <= i < (seq![e] + es).len() implies #[trigger] (seq![e]
                + es)[i].packet_data.len() == (seq![e] + es)[i].captured_len by {
                if i > 0 {
                    assert((seq![e] + es)[i] == es[i - 1]);
                }
            }
        }
    }
}

/// What holds of every reading of a capture file.
proof fn lemma_open(s: PcapngView, contents: Seq<u8>)
    ensures
        open_result(s, contents).0.input == contents,
        open_result(s, contents).0.input_pos <= contents.len(),
        -1 <= open_result(s, contents).1 < crate::model::PKT_BUFFER_LEN,
        forall|i: int|
            0 <= i < open_result(s, contents).2.len() ==> #[trigger] open_result(
                s,
                contents,
            ).2[i].packet_data.len() == open_result(s, contents).2[i].captured_len,
{
    let s0 = PcapngView { input: contents, input_pos: 0, ..s };
    lemma_after_read(s0, 24);
    let s1 = after_read(s0, 24);
    let b = bytes_at(s0, 24);
    if read_count(s0, 24) == 24 && is_shb_magic(b) && (is_magic_be(b) || is_magic_le(b)) {
        let big = is_magic_be(b);
        let s2 = PcapngView {
            big_endian: big,
            shb: ShbView {
                total_len: u32_at(b, 4, big),
                major_version: u16_at(b, 12, big),
                minor_version: u16_at(b, 14, big),
                section_len: u64_at(b, 16, big),
                ..s1.shb
            },
            ..s1
        };
        lemma_shb_options(s2);
        let (s3, res) = shb_options(s2);
        if res == 0 {
            lemma_after_read(s3, 4);
            let s4 = after_read(s3, 4);
            if read_count(s3, 4) == 4 {
                lemma_blocks(PcapngView { total_len: u32_at(bytes_at(s3, 4), 0, big), ..s4 });
            }
        } else if res == 1 {
            lemma_blocks(s3);
        }
    }
}

/// Every enhanced packet block that reading a capture file hands out holds
/// exactly `captured_len` bytes of packet data.
pub proof fn law_packet_data_has_captured_len(s: PcapngView, contents: Seq<u8>)
    ensures
        forall|i: int|
            0 <= i < open_result(s, contents).2.len() ==> #[trigger] open_result(
                s,
                contents,
            ).2[i].packet_data.len() == open_result(s, contents).2[i].captured_len,
{
    lemma_open(s, contents);
}

/// Reading a capture file reads only from that file and never beyond its
/// end, and its result code is 0, -1, or the bytes that were left of a packet
/// block cut short, fewer than the block buffer holds.
pub proof fn law_reading_stays_in_input(s: PcapngView, contents: Seq<u8>)
    ensures
        open_result(s, contents).0.input == contents,
        open_result(s, contents).0.input_pos <= contents.len(),
        -1 <= open_result(s, contents).1 < crate::model::PKT_BUFFER_LEN,
{
    lemma_open(s, contents);
}

/// The byte order that a section header's magic selects reads that magic as
/// 0x1A2B3C4D: a big-endian writer's bytes read big-endian, a little-endian
/// writer's bytes read little-endian.
pub proof fn law_byte_order_magic(b: Seq<u8>)
    requires
        b.len() >= 12,
    ensures
        is_magic_be(b) ==> u32_at(b, 8, true) == 0x1A2B3C4D,
        is_magic_le(b) ==> u32_at(b, 8, false) == 0x1A2B3C4D,
        !(is_magic_be(b) && is_magic_le(b)),
{
}


/// Setting one of the four option flags keeps every bit that was set and
/// adds no bit outside the four.
proof fn lemma_flag_set(a: u32, f: u32)
    requires
        f == 1 || f == 2 || f == 4 || f == 8,
    ensures
        a & !(a | f) == 0,
        ((a | f) & !a) & !0xFu32 == 0,
{
    assert(a & !(a | 1u32) == 0 && ((a | 1u32) & !a) & !0xFu32 == 0) by (bit_vector);
    assert(a & !(a | 2u32) == 0 && ((a | 2u32) & !a) & !0xFu32 == 0) by (bit_vector);
    assert(a & !(a | 4u32) == 0 && ((a | 4u32) & !a) & !0xFu32 == 0) by (bit_vector);
    assert(a & !(a | 8u32) == 0 && ((a | 8u32) & !a) & !0xFu32 == 0) by (bit_vector);
}

/// Two steps that each keep the bits set and add none outside the four
/// flags make one such step.
proof fn lemma_flags_chain(x: u32, y: u32, z: u32)
    requires
        x & !y == 0,
        (y & !x) & !0xFu32 == 0,
        y & !z == 0,
        (z & !y) & !0xFu32 == 0,
    ensures
        x & !z == 0,
        (z & !x) & !0xFu32 == 0,
{
    assert(x & !y == 0 && (y & !x) & !0xFu32 == 0 && y & !z == 0 && (z & !y) & !0xFu32 == 0
        ==> x & !z == 0 && (z & !x) & !0xFu32 == 0) by (bit_vector);
}

/// Reading the section header options never clears a flag of `shb_opts`,
/// sets none but those of the comment, hardware, system and application
/// options, and ends with -1, 0 or 1.
pub proof fn law_section_option_flags(s: PcapngView)
    ensures
        s.shb_opts & !shb_options(s).0.shb_opts == 0,
        (shb_options(s).0.shb_opts & !s.shb_opts) & !0xFu32 == 0,
        shb_options(s).1 == -1 || shb_options(s).1 == 0 || shb_options(s).1 == 1,
    decreases s.input.len() - s.input_pos,
{
    reveal(shb_options);
    let a = s.shb_opts;
    assert(a & !a == 0 && (a & !a) & !0xFu32 == 0) by (bit_vector);
    let s1 = after_read(s, 4);
    let w = bytes_at(s, 4);
    let big = s.big_endian;
    if read_count(s, 4) == 4 && u32_at(w, 0, big) != s.shb.total_len && !crate::model::has4(
        w,
        0,
        0,
        0,
        0,
        0,
    ) {
        let code = u16_at(w, 0, big);
        let len = u16_at(w, 2, big);
        let padded = crate::bytes::round_up4(len as int);
        let s2 = after_read(s1, padded);
        if read_count(s1, padded) == padded {
            let value = bytes_at(s1, len as int);
            assert(s2.shb_opts == a);
            let f: u32 = if code == crate::model::SHB_OP_HW {
                crate::model::SHB_OPT_HW
            } else if code == crate::model::SHB_OP_OS {
                crate::model::SHB_OPT_OS
            } else if code == crate::model::SHB_OP_USER_APP {
                crate::model::SHB_OPT_USER_APP
            } else {
                crate::model::SHB_OPT_COMMENT
            };
            let t = if code == crate::model::SHB_OP_HW {
                PcapngView { hw: value, shb_opts: a | f, ..s2 }
            } else if code == crate::model::SHB_OP_OS {
                PcapngView { os: value, shb_opts: a | f, ..s2 }
            } else if code == crate::model::SHB_OP_USER_APP {
                PcapngView { application: value, shb_opts: a | f, ..s2 }
            } else {
                PcapngView { comment: value, shb_opts: a | f, ..s2 }
            };
            if code == crate::model::SHB_OP_HW || code == crate::model::SHB_OP_OS || code
                == crate::model::SHB_OP_USER_APP || code == crate::model::SHB_OP_COMMENT {
                assert(shb_options(s) == shb_options(t));
                law_section_option_flags(t);
                lemma_flag_set(a, f);
                lemma_flags_chain(a, a | f, shb_options(t).0.shb_opts);
            }
        }
    }
}


/// Whether an interface description body's options are accepted does not
/// depend on the fields they are decoded into.
proof fn lemma_idb_walk_accepts(b: Seq<u8>, big: bool, off: int, a1: IdbView, a2: IdbView)
    ensures
        option_walk(b, big, off, a1, idb_decoder()) is Some <==> option_walk(
            b,
            big,
            off,
            a2,
            idb_decoder(),
        ) is Some,
    decreases b.len() - off,
{
    let end = b.len() - 4;
    if off != end && !(off < 0 || off + 4 > end) {
        let code = u16_at(b, off, big);
        let len = u16_at(b, off + 2, big);
        let next = off + 4 + round_up4(len as int);
        let v = b.subrange(off + 4, off + 4 + len);
        if !(code == 0 && len == 0) && next <= end {
            match (idb_option(a1, code, v, big), idb_option(a2, code, v, big)) {
                (Some(x1), Some(x2)) => lemma_idb_walk_accepts(b, big, next, x1, x2),
                _ => {},
            }
        }
    }
}

/// Whether an interface statistics body's options are accepted does not
/// depend on the fields they are decoded into.
proof fn lemma_isb_walk_accepts(b: Seq<u8>, big: bool, off: int, a1: IsbView, a2: IsbView)
    ensures
        option_walk(b, big, off, a1, isb_decoder()) is Some <==> option_walk(
            b,
            big,
            off,
            a2,
            isb_decoder(),
        ) is Some,
    decreases b.len() - off,
{
    let end = b.len() - 4;
    if off != end && !(off < 0 || off + 4 > end) {
        let code = u16_at(b, off, big);
        let len = u16_at(b, off + 2, big);
        let next = off + 4 + round_up4(len as int);
        let v = b.subrange(off + 4, off + 4 + len);
        if !(code == 0 && len == 0) && next <= end {
            match (isb_option(a1, code, v, big), isb_option(a2, code, v, big)) {
                (Some(x1), Some(x2)) => lemma_isb_walk_accepts(b, big, next, x1, x2),
                _ => {},
            }
        }
    }
}

/// A block's step reads nothing but the `n` bytes of its body: two readers
/// with the same byte order whose next `n` bytes are equal get the same
/// result and fill the same fields.
pub proof fn law_blocks_read_only_their_bytes(s: PcapngView, t: PcapngView, e: EpbView, n: int)
    requires
        0 <= n,
        read_count(s, n) == n,
        read_count(t, n) == n,
        bytes_at(s, n) == bytes_at(t, n),
        s.big_endian == t.big_endian,
    ensures
        idb_step(s, n).1 == idb_step(t, n).1,
        s.idb == t.idb ==> idb_step(s, n).0.idb == idb_step(t, n).0.idb,
        isb_step(s, n).1 == isb_step(t, n).1,
        s.stats == t.stats ==> isb_step(s, n).0.stats == isb_step(t, n).0.stats,
        epb_step(s, e, n).1 == epb_step(t, e, n).1,
        epb_step(s, e, n).2 == epb_step(t, e, n).2,
{
    let b = bytes_at(s, n);
    let big = s.big_endian;
    if b.len() >= 12 && trailer_ok(b, big) {
        lemma_idb_walk_accepts(
            b,
            big,
            8,
            IdbView { link_type: u16_at(b, 0, big), snaplen: u32_at(b, 4, big), ..s.idb },
            IdbView { link_type: u16_at(b, 0, big), snaplen: u32_at(b, 4, big), ..t.idb },
        );
    }
    if b.len() >= 16 && trailer_ok(b, big) {
        lemma_isb_walk_accepts(
            b,
            big,
            12,
            IsbView { intf_id: u32_at(b, 0, big), timestamp: ts_at(b, 4, big), ..s.stats },
            IsbView { intf_id: u32_at(b, 0, big), timestamp: ts_at(b, 4, big), ..t.stats },
        );
    }
}

/// A packet block succeeds only when its captured bytes, padded to four,
/// lie between its 20-byte header and its trailing length, and that length
/// repeats the block's: with a body of `n` bytes read whole, the result is 0
/// exactly then, and -1 otherwise.
pub proof fn law_packet_data_inside_block(s: PcapngView, e: EpbView, n: int)
    requires
        0 <= s.input_pos <= s.input.len(),
        0 <= n,
        read_count(s, n) == n,
    ensures
        epb_step(s, e, n).1 == 0 || epb_step(s, e, n).1 == -1,
        epb_step(s, e, n).1 == 0 <==> {
            let b = bytes_at(s, n);
            &&& n >= 24
            &&& 20 + round_up4(u32_at(b, 12, s.big_endian) as int) + 4 <= n
            &&& trailer_ok(b, s.big_endian)
        },
{
    assert(bytes_at(s, n).len() == n);
}

} // verus!
