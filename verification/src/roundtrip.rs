//! Capture files as a writer lays them out, and the law that reading such a
//! file gives back what was written.

use vstd::prelude::*;
use crate::bytes::u16_at;
use crate::bytes::u32_at;
use crate::bytes::u16_bytes;
use crate::bytes::u32_bytes;
use crate::bytes::round_up4;
use crate::bytes::law_read_back_written;
use crate::model::option_walk;
use crate::model::PKT_BUFFER_LEN;
use crate::model::SHB_INTF_DESC_BLOCK;
use crate::model::SHB_INTF_STATS_BLOCK;
use crate::model::SHB_ENH_PKT_BLOCK;
use crate::model::IDB_OPT_IFNAME;
use crate::model::IDB_OPT_TSRESOL;
use crate::model::IDB_OPT_OS;
use crate::model::ISB_OPT_COMMENT;
use crate::model::ISB_OPT_START_TIME;
use crate::model::ISB_OPT_PKT_DROP;
use crate::model::EpbView;
use crate::model::IdbView;
use crate::model::IsbView;
use crate::model::idb_decoder;
use crate::model::isb_decoder;
use crate::model::idb_body;
use crate::model::isb_body;
use crate::model::epb_body;
use crate::model::trailer_ok;
use crate::model::PcapngView;
use crate::model::read_count;
use crate::model::after_read;
use crate::model::bytes_at;
use crate::model::idb_step;
use crate::model::isb_step;
use crate::model::epb_step;
use crate::model::blocks;
use crate::model::shb_options;
use crate::model::open_result;
use crate::model::ShbView;
use crate::model::has4;
use crate::model::is_shb_magic;
use crate::model::is_magic_be;
use crate::model::is_magic_le;
use crate::model::SHB_OP_COMMENT;
use crate::model::SHB_OP_HW;
use crate::model::SHB_OP_OS;
use crate::model::SHB_OP_USER_APP;
use crate::model::SHB_OPT_COMMENT;
use crate::model::SHB_OPT_HW;
use crate::model::SHB_OPT_OS;
use crate::model::SHB_OPT_USER_APP;
use crate::bytes::u64_at;
use crate::bytes::u64_bytes;
use vstd::utf8::valid_utf8;
use vstd::utf8::decode_utf8;

verus! {

/// `k` zero bytes.
pub open spec fn zeros(k: int) -> Seq<u8> {
    Seq::new(k as nat, |i: int| 0u8)
}

/// One option: code, length, value, and zeros up to a multiple of four.
pub open spec fn option_bytes(code: u16, v: Seq<u8>, big_endian: bool) -> Seq<u8> {
    u16_bytes(code, big_endian) + u16_bytes(v.len() as u16, big_endian) + v + zeros(
        round_up4(v.len() as int) - v.len(),
    )
}

/// Options one after another.
pub open spec fn options_bytes(list: Seq<(u16, Seq<u8>)>, big_endian: bool) -> Seq<u8>
    decreases list.len(),
{
    if list.len() == 0 {
        Seq::empty()
    } else {
        option_bytes(list[0].0, list[0].1, big_endian) + options_bytes(list.drop_first(), big_endian)
    }
}

/// The end-of-options marker.
pub open spec fn end_marker() -> Seq<u8> {
    seq![0u8, 0, 0, 0]
}

/// A block's options as a writer lays them out: none at all, or the options
/// followed by the end-of-options marker.
pub open spec fn option_list(list: Seq<(u16, Seq<u8>)>, big_endian: bool) -> Seq<u8> {
    if list.len() == 0 {
        Seq::empty()
    } else {
        options_bytes(list, big_endian) + end_marker()
    }
}

/// An option that a block can hold: a code other than zero and a length
/// that fits with its padding in sixteen bits.
pub open spec fn writable_option(o: (u16, Seq<u8>)) -> bool {
    o.0 != 0 && o.1.len() <= 0xfff0
}

/// The options folded into a record, one after another, as `decode` takes
/// them.
pub open spec fn fold_options<A>(
    list: Seq<(u16, Seq<u8>)>,
    acc: A,
    decode: spec_fn(A, u16, Seq<u8>, bool) -> Option<A>,
    big_endian: bool,
) -> Option<A>
    decreases list.len(),
{
    if list.len() == 0 {
        Some(acc)
    } else {
        match decode(acc, list[0].0, list[0].1, big_endian) {
            Some(a) => fold_options(list.drop_first(), a, decode, big_endian),
            None => None,
        }
    }
}

/// A range of `b` that holds `x + y` holds `x`, then `y`.
proof fn lemma_split(b: Seq<u8>, lo: int, hi: int, x: Seq<u8>, y: Seq<u8>)
    requires
        0 <= lo <= hi <= b.len(),
        b.subrange(lo, hi) == x + y,
    ensures
        hi - lo == x.len() + y.len(),
        b.subrange(lo, lo + x.len()) == x,
        b.subrange(lo + x.len(), hi) == y,
{
    assert((x + y).len() == x.len() + y.len());
    assert forall|j: int| 0 <= j < x.len() implies #[trigger] b.subrange(lo, lo + x.len())[j]
        == x[j] by {
        assert(b[lo + j] == b.subrange(lo, hi)[j]);
        assert((x + y)[j] == x[j]);
    }
    assert(b.subrange(lo, lo + x.len()) =~= x);
    assert forall|j: int| 0 <= j < y.len() implies #[trigger] b.subrange(lo + x.len(), hi)[j]
        == y[j] by {
        assert(b[lo + x.len() + j] == b.subrange(lo, hi)[x.len() + j]);
        assert((x + y)[x.len() + j] == y[j]);
    }
    assert(b.subrange(lo + x.len(), hi) =~= y);
}

/// The 16-bit value read where `b` holds its bytes.
pub proof fn lemma_u16_in(b: Seq<u8>, off: int, x: u16, big_endian: bool)
    requires
        0 <= off,
        off + 2 <= b.len(),
        b.subrange(off, off + 2) == u16_bytes(x, big_endian),
    ensures
        u16_at(b, off, big_endian) == x,
{
    law_read_back_written(x, 0, 0, big_endian);
    assert(b[off] == b.subrange(off, off + 2)[0]);
    assert(b[off + 1] == b.subrange(off, off + 2)[1]);
}

/// The 32-bit value read where `b` holds its bytes.
pub proof fn lemma_u32_in(b: Seq<u8>, off: int, x: u32, big_endian: bool)
    requires
        0 <= off,
        off + 4 <= b.len(),
        b.subrange(off, off + 4) == u32_bytes(x, big_endian),
    ensures
        u32_at(b, off, big_endian) == x,
{
    law_read_back_written(0, x, 0, big_endian);
    assert(b[off] == b.subrange(off, off + 4)[0]);
    assert(b[off + 1] == b.subrange(off, off + 4)[1]);
    assert(b[off + 2] == b.subrange(off, off + 4)[2]);
    assert(b[off + 3] == b.subrange(off, off + 4)[3]);
}

/// The 64-bit value read where `b` holds its bytes.
pub proof fn lemma_u64_in(b: Seq<u8>, off: int, x: u64, big_endian: bool)
    requires
        0 <= off,
        off + 8 <= b.len(),
        b.subrange(off, off + 8) == u64_bytes(x, big_endian),
    ensures
        u64_at(b, off, big_endian) == x,
{
    law_read_back_written(0, 0, x, big_endian);
    let w = b.subrange(off, off + 8);
    assert(b[off] == w[0]);
    assert(b[off + 1] == w[1]);
    assert(b[off + 2] == w[2]);
    assert(b[off + 3] == w[3]);
    assert(b[off + 4] == w[4]);
    assert(b[off + 5] == w[5]);
    assert(b[off + 6] == w[6]);
    assert(b[off + 7] == w[7]);
}

pub proof fn lemma_round_up4(n: int)
    requires
        n >= 0,
    ensures
        n <= round_up4(n) < n + 4,
        round_up4(n) % 4 == 0,
{
    assert(n <= (n + 3) / 4 * 4 < n + 4) by (nonlinear_arith)
        requires
            n >= 0,
    ;
    assert(((n + 3) / 4 * 4) % 4 == 0) by (nonlinear_arith)
        requires
            n >= 0,
    ;
}

/// The layout of one written option.
proof fn lemma_option_layout(code: u16, v: Seq<u8>, big_endian: bool)
    requires
        v.len() <= 0xfff0,
    ensures
        ({
            let w = option_bytes(code, v, big_endian);
            &&& w.len() == 4 + round_up4(v.len() as int)
            &&& w.subrange(0, 2) == u16_bytes(code, big_endian)
            &&& w.subrange(2, 4) == u16_bytes(v.len() as u16, big_endian)
            &&& w.subrange(4, 4 + v.len() as int) == v
        }),
{
    lemma_round_up4(v.len() as int);
    let a = u16_bytes(code, big_endian);
    let l = u16_bytes(v.len() as u16, big_endian);
    let z = zeros(round_up4(v.len() as int) - v.len());
    let w = option_bytes(code, v, big_endian);
    assert(w == a + l + v + z);
    assert(w.subrange(0, 2) =~= a);
    assert(w.subrange(2, 4) =~= l);
    assert(w.subrange(4, 4 + v.len() as int) =~= v);
}

/// Walking written options, followed by the end marker or by nothing, folds
/// every option in.
pub proof fn lemma_walk_written<A>(
    b: Seq<u8>,
    big_endian: bool,
    off: int,
    acc: A,
    decode: spec_fn(A, u16, Seq<u8>, bool) -> Option<A>,
    list: Seq<(u16, Seq<u8>)>,
    m: Seq<u8>,
)
    requires
        b.len() >= 4,
        0 <= off <= b.len() - 4,
        b.subrange(off, b.len() - 4) == options_bytes(list, big_endian) + m,
        m == Seq::<u8>::empty() || m == end_marker(),
        forall|i: int| 0 <= i < list.len() ==> writable_option(#[trigger] list[i]),
    ensures
        option_walk(b, big_endian, off, acc, decode) == fold_options(list, acc, decode, big_endian),
    decreases list.len(),
{
    let end = b.len() - 4;
    if list.len() == 0 {
        assert(options_bytes(list, big_endian) + m =~= m);
        if m.len() == 4 {
            assert(b[off] == b.subrange(off, end)[0]);
            assert(b[off + 1] == b.subrange(off, end)[1]);
            assert(b[off + 2] == b.subrange(off, end)[2]);
            assert(b[off + 3] == b.subrange(off, end)[3]);
        }
    } else {
        let o = list[0];
        assert(writable_option(list[0]));
        let w = option_bytes(o.0, o.1, big_endian);
        let rest = options_bytes(list.drop_first(), big_endian) + m;
        assert(options_bytes(list, big_endian) + m =~= w + rest);
        lemma_split(b, off, end, w, rest);
        lemma_option_layout(o.0, o.1, big_endian);
        assert(w =~= w.subrange(0, 4) + w.subrange(4, w.len() as int));
        lemma_split(b, off, off + w.len(), w.subrange(0, 4), w.subrange(4, w.len() as int));
        assert(b.subrange(off, off + 2) =~= w.subrange(0, 2));
        assert(b.subrange(off + 2, off + 4) =~= w.subrange(2, 4));
        assert(b.subrange(off + 4, off + 4 + o.1.len()) =~= w.subrange(4, 4 + o.1.len() as int));
        lemma_u16_in(b, off, o.0, big_endian);
        lemma_u16_in(b, off + 2, o.1.len() as u16, big_endian);
        assert forall|i: int| 0 <= i < list.drop_first().len() implies writable_option(
            #[trigger] list.drop_first()[i],
        ) by {
            assert(list.drop_first()[i] == list[i + 1]);
        }
        match decode(acc, o.0, o.1, big_endian) {
            Some(a) => {
                lemma_walk_written(b, big_endian, off + w.len(), a, decode, list.drop_first(), m);
            },
            None => {},
        }
    }
}

/// Options that `decode` takes whatever the record, fold to a record.
pub proof fn lemma_fold_some<A>(
    list: Seq<(u16, Seq<u8>)>,
    acc: A,
    decode: spec_fn(A, u16, Seq<u8>, bool) -> Option<A>,
    big_endian: bool,
)
    requires
        forall|i: int, a: A|
            0 <= i < list.len() ==> (#[trigger] decode(a, list[i].0, list[i].1, big_endian)) is Some,
    ensures
        fold_options(list, acc, decode, big_endian) is Some,
    decreases list.len(),
{
    if list.len() > 0 {
        assert(decode(acc, list[0].0, list[0].1, big_endian) is Some);
        let a = decode(acc, list[0].0, list[0].1, big_endian)->Some_0;
        assert forall|i: int, b: A| 0 <= i < list.drop_first().len() implies (#[trigger] decode(
            b,
            list.drop_first()[i].0,
            list.drop_first()[i].1,
            big_endian,
        )) is Some by {
            assert(list.drop_first()[i] == list[i + 1]);
            assert(decode(b, list[i + 1].0, list[i + 1].1, big_endian) is Some);
        }
        lemma_fold_some(list.drop_first(), a, decode, big_endian);
    }
}

/// An interface description option that the reader takes: a name or system
/// in UTF-8, a time resolution of at least one byte, or any other option.
pub open spec fn idb_option_ok(o: (u16, Seq<u8>)) -> bool {
    &&& (o.0 == IDB_OPT_IFNAME || o.0 == IDB_OPT_OS) ==> valid_utf8(o.1)
    &&& o.0 == IDB_OPT_TSRESOL ==> o.1.len() >= 1
}

/// An interface statistics option that the reader takes: a comment in UTF-8,
/// or a start time, end time or counter of eight bytes.
pub open spec fn isb_option_ok(o: (u16, Seq<u8>)) -> bool {
    ||| o.0 == ISB_OPT_COMMENT && valid_utf8(o.1)
    ||| ISB_OPT_START_TIME <= o.0 <= ISB_OPT_PKT_DROP && o.1.len() == 8
}

/// A block as a writer lays it out.
pub enum WrittenBlock {
    Interface { link_type: u16, snaplen: u32, options: Seq<(u16, Seq<u8>)> },
    Statistics { intf_id: u32, ts_high: u32, ts_low: u32, options: Seq<(u16, Seq<u8>)> },
    Packet { packet: EpbView, packet_options: Seq<u8> },
}

/// The body of a written block, before its trailing length.
pub open spec fn block_body(wb: WrittenBlock, big_endian: bool) -> Seq<u8> {
    match wb {
        WrittenBlock::Interface { link_type, snaplen, options } => u16_bytes(link_type, big_endian)
            + seq![0u8, 0] + u32_bytes(snaplen, big_endian) + option_list(options, big_endian),
        WrittenBlock::Statistics { intf_id, ts_high, ts_low, options } => u32_bytes(
            intf_id,
            big_endian,
        ) + u32_bytes(ts_high, big_endian) + u32_bytes(ts_low, big_endian) + option_list(
            options,
            big_endian,
        ),
        WrittenBlock::Packet { packet, packet_options } => u32_bytes(packet.intf_id, big_endian)
            + u32_bytes(packet.ts_high, big_endian) + u32_bytes(packet.ts_low, big_endian)
            + u32_bytes(packet.packet_data.len() as u32, big_endian) + u32_bytes(
            packet.original_len,
            big_endian,
        ) + packet.packet_data + zeros(
            round_up4(packet.packet_data.len() as int) - packet.packet_data.len(),
        ) + packet_options,
    }
}

pub open spec fn block_type(wb: WrittenBlock) -> u32 {
    match wb {
        WrittenBlock::Interface { .. } => SHB_INTF_DESC_BLOCK,
        WrittenBlock::Statistics { .. } => SHB_INTF_STATS_BLOCK,
        WrittenBlock::Packet { .. } => SHB_ENH_PKT_BLOCK,
    }
}

/// A block's total length: type, length, body and trailing length.
pub open spec fn block_total(wb: WrittenBlock, big_endian: bool) -> u32 {
    (block_body(wb, big_endian).len() + 12) as u32
}

/// The bytes of a written block.
pub open spec fn block_bytes(wb: WrittenBlock, big_endian: bool) -> Seq<u8> {
    let total = block_total(wb, big_endian);
    u32_bytes(block_type(wb), big_endian) + u32_bytes(total, big_endian) + block_body(wb, big_endian)
        + u32_bytes(total, big_endian)
}

/// A block that the reader takes: it fits the block buffer, its options are
/// well formed and taken, and a packet's captured length is its data's.
pub open spec fn block_ok(wb: WrittenBlock, big_endian: bool) -> bool {
    &&& block_body(wb, big_endian).len() + 4 <= PKT_BUFFER_LEN
    &&& match wb {
        WrittenBlock::Interface { options, .. } => forall|i: int|
            0 <= i < options.len() ==> writable_option(#[trigger] options[i]) && idb_option_ok(
                options[i],
            ),
        WrittenBlock::Statistics { options, .. } => forall|i: int|
            0 <= i < options.len() ==> writable_option(#[trigger] options[i]) && isb_option_ok(
                options[i],
            ),
        WrittenBlock::Packet { packet, .. } => packet.captured_len == packet.packet_data.len(),
    }
}

/// The body that the reader gets of a written block: its body and its
/// trailing length.
pub open spec fn read_body(wb: WrittenBlock, big_endian: bool) -> Seq<u8> {
    block_body(wb, big_endian) + u32_bytes(block_total(wb, big_endian), big_endian)
}

proof fn lemma_trailer(wb: WrittenBlock, big_endian: bool)
    requires
        block_ok(wb, big_endian),
    ensures
        trailer_ok(read_body(wb, big_endian), big_endian),
        read_body(wb, big_endian).len() == block_body(wb, big_endian).len() + 4,
{
    let bb = read_body(wb, big_endian);
    let body = block_body(wb, big_endian);
    let t = u32_bytes(block_total(wb, big_endian), big_endian);
    assert(bb.subrange(body.len() as int, bb.len() as int) =~= t);
    lemma_u32_in(bb, body.len() as int, block_total(wb, big_endian), big_endian);
}

/// The options of a written block lie between its fixed fields and its
/// trailing length.
proof fn lemma_options_in(bb: Seq<u8>, fixed: Seq<u8>, list: Seq<(u16, Seq<u8>)>, t: Seq<u8>, big_endian: bool)
    requires
        bb == fixed + option_list(list, big_endian) + t,
        t.len() == 4,
    ensures
        bb.subrange(fixed.len() as int, bb.len() - 4) == options_bytes(list, big_endian) + (if list.len()
            == 0 {
            Seq::<u8>::empty()
        } else {
            end_marker()
        }),
{
    let ol = option_list(list, big_endian);
    assert(bb.subrange(fixed.len() as int, bb.len() - 4) =~= ol);
    if list.len() == 0 {
        assert(options_bytes(list, big_endian) =~= Seq::<u8>::empty());
        assert(ol =~= options_bytes(list, big_endian) + Seq::<u8>::empty());
    }
}

/// A written interface description block reads with its fields.
proof fn lemma_idb_read(wb: WrittenBlock, big_endian: bool, f: IdbView)
    requires
        block_ok(wb, big_endian),
        wb is Interface,
    ensures
        idb_body(read_body(wb, big_endian), big_endian, f) is Some,
{
    let bb = read_body(wb, big_endian);
    lemma_trailer(wb, big_endian);
    let (link_type, snaplen, options) = match wb {
        WrittenBlock::Interface { link_type, snaplen, options } => (link_type, snaplen, options),
        _ => arbitrary(),
    };
    let fixed = u16_bytes(link_type, big_endian) + seq![0u8, 0] + u32_bytes(snaplen, big_endian);
    let t = u32_bytes(block_total(wb, big_endian), big_endian);
    assert(bb =~= fixed + option_list(options, big_endian) + t);
    lemma_options_in(bb, fixed, options, t, big_endian);
    let init = IdbView { link_type: u16_at(bb, 0, big_endian), snaplen: u32_at(bb, 4, big_endian), ..f };
    lemma_walk_written(
        bb,
        big_endian,
        8,
        init,
        idb_decoder(),
        options,
        if options.len() == 0 {
            Seq::<u8>::empty()
        } else {
            end_marker()
        },
    );
    assert forall|i: int, a: IdbView| 0 <= i < options.len() implies (#[trigger] idb_decoder()(
        a,
        options[i].0,
        options[i].1,
        big_endian,
    )) is Some by {
        assert(idb_option_ok(options[i]));
    }
    lemma_fold_some(options, init, idb_decoder(), big_endian);
}

/// A written interface statistics block reads with its fields.
proof fn lemma_isb_read(wb: WrittenBlock, big_endian: bool, f: IsbView)
    requires
        block_ok(wb, big_endian),
        wb is Statistics,
    ensures
        isb_body(read_body(wb, big_endian), big_endian, f) is Some,
{
    let bb = read_body(wb, big_endian);
    lemma_trailer(wb, big_endian);
    let (intf_id, ts_high, ts_low, options) = match wb {
        WrittenBlock::Statistics { intf_id, ts_high, ts_low, options } => (
            intf_id,
            ts_high,
            ts_low,
            options,
        ),
        _ => arbitrary(),
    };
    let fixed = u32_bytes(intf_id, big_endian) + u32_bytes(ts_high, big_endian) + u32_bytes(
        ts_low,
        big_endian,
    );
    let t = u32_bytes(block_total(wb, big_endian), big_endian);
    assert(bb =~= fixed + option_list(options, big_endian) + t);
    lemma_options_in(bb, fixed, options, t, big_endian);
    let init = IsbView {
        intf_id: u32_at(bb, 0, big_endian),
        timestamp: crate::model::ts_at(bb, 4, big_endian),
        ..f
    };
    lemma_walk_written(
        bb,
        big_endian,
        12,
        init,
        isb_decoder(),
        options,
        if options.len() == 0 {
            Seq::<u8>::empty()
        } else {
            end_marker()
        },
    );
    assert forall|i: int, a: IsbView| 0 <= i < options.len() implies (#[trigger] isb_decoder()(
        a,
        options[i].0,
        options[i].1,
        big_endian,
    )) is Some by {
        assert(isb_option_ok(options[i]));
    }
    lemma_fold_some(options, init, isb_decoder(), big_endian);
}

/// A written packet block reads as its packet, appended to what `e` held.
#[verifier::rlimit(40)]
proof fn lemma_epb_read_into(wb: WrittenBlock, big_endian: bool, e0: EpbView)
    requires
        block_ok(wb, big_endian),
        wb is Packet,
    ensures
        crate::model::epb_fill(e0, read_body(wb, big_endian), big_endian) == (
            0int,
            EpbView { packet_data: e0.packet_data + wb->packet.packet_data, ..wb->packet },
        ),
{
    let bb = read_body(wb, big_endian);
    lemma_trailer(wb, big_endian);
    let e = wb->packet;
    let cap = e.packet_data.len() as int;
    lemma_round_up4(cap);
    let a = u32_bytes(e.intf_id, big_endian);
    let b1 = u32_bytes(e.ts_high, big_endian);
    let c = u32_bytes(e.ts_low, big_endian);
    let d = u32_bytes(cap as u32, big_endian);
    let g = u32_bytes(e.original_len, big_endian);
    let z = zeros(round_up4(cap) - cap);
    let t = u32_bytes(block_total(wb, big_endian), big_endian);
    assert(bb =~= a + b1 + c + d + g + e.packet_data + z + wb->packet_options + t);
    assert(bb.subrange(0, 4) =~= a);
    assert(bb.subrange(4, 8) =~= b1);
    assert(bb.subrange(8, 12) =~= c);
    assert(bb.subrange(12, 16) =~= d);
    assert(bb.subrange(16, 20) =~= g);
    assert(bb.subrange(20, 20 + cap) =~= e.packet_data);
    lemma_u32_in(bb, 0, e.intf_id, big_endian);
    lemma_u32_in(bb, 4, e.ts_high, big_endian);
    lemma_u32_in(bb, 8, e.ts_low, big_endian);
    lemma_u32_in(bb, 12, cap as u32, big_endian);
    lemma_u32_in(bb, 16, e.original_len, big_endian);
    let r = crate::model::epb_fill(e0, bb, big_endian).1;
    assert(r =~= EpbView { packet_data: e0.packet_data + e.packet_data, ..e });
}

/// A written packet block reads as its packet.
proof fn lemma_epb_read(wb: WrittenBlock, big_endian: bool)
    requires
        block_ok(wb, big_endian),
        wb is Packet,
    ensures
        crate::model::epb_fill(crate::model::empty_epb(), read_body(wb, big_endian), big_endian)
            == (0int, wb->packet),
{
    lemma_epb_read_into(wb, big_endian, crate::model::empty_epb());
    assert(Seq::<u8>::empty() + wb->packet.packet_data =~= wb->packet.packet_data);
    assert(EpbView {
        packet_data: Seq::<u8>::empty() + wb->packet.packet_data,
        ..wb->packet
    } =~= wb->packet);
}

/// Options in a packet block do not change what is read of it: the block
/// reads as the same block without them would.
pub proof fn law_packet_options_are_skipped(
    packet: EpbView,
    packet_options: Seq<u8>,
    big_endian: bool,
    e: EpbView,
)
    requires
        block_ok(WrittenBlock::Packet { packet, packet_options }, big_endian),
    ensures
        crate::model::epb_fill(
            e,
            read_body(WrittenBlock::Packet { packet, packet_options }, big_endian),
            big_endian,
        ) == crate::model::epb_fill(
            e,
            read_body(WrittenBlock::Packet { packet, packet_options: Seq::empty() }, big_endian),
            big_endian,
        ),
{
    let w1 = WrittenBlock::Packet { packet, packet_options };
    let w2 = WrittenBlock::Packet { packet, packet_options: Seq::empty() };
    assert(block_body(w2, big_endian).len() <= block_body(w1, big_endian).len());
    lemma_epb_read_into(w1, big_endian, e);
    lemma_epb_read_into(w2, big_endian, e);
}

/// The interface description options whose codes the reader keeps: name,
/// time resolution and system.
pub open spec fn known_idb_options(list: Seq<(u16, Seq<u8>)>) -> Seq<(u16, Seq<u8>)>
    decreases list.len(),
{
    if list.len() == 0 {
        list
    } else if list[0].0 == IDB_OPT_IFNAME || list[0].0 == IDB_OPT_TSRESOL || list[0].0
        == IDB_OPT_OS {
        seq![list[0]] + known_idb_options(list.drop_first())
    } else {
        known_idb_options(list.drop_first())
    }
}

proof fn lemma_fold_known(list: Seq<(u16, Seq<u8>)>, acc: IdbView, big_endian: bool)
    ensures
        fold_options(list, acc, idb_decoder(), big_endian) == fold_options(
            known_idb_options(list),
            acc,
            idb_decoder(),
            big_endian,
        ),
    decreases list.len(),
{
    if list.len() > 0 {
        let k = known_idb_options(list);
        if list[0].0 == IDB_OPT_IFNAME || list[0].0 == IDB_OPT_TSRESOL || list[0].0 == IDB_OPT_OS {
            assert(k[0] == list[0]);
            assert(k.drop_first() =~= known_idb_options(list.drop_first()));
            match idb_decoder()(acc, list[0].0, list[0].1, big_endian) {
                Some(a) => lemma_fold_known(list.drop_first(), a, big_endian),
                None => {},
            }
        } else {
            lemma_fold_known(list.drop_first(), acc, big_endian);
        }
    }
}

/// Interface description options other than the name, time resolution and
/// system are skipped, value and padding: an interface block reads as the
/// same block without them would.
pub proof fn law_unknown_interface_options_are_skipped(
    link_type: u16,
    snaplen: u32,
    options: Seq<(u16, Seq<u8>)>,
    big_endian: bool,
    f: IdbView,
)
    requires
        block_ok(WrittenBlock::Interface { link_type, snaplen, options }, big_endian),
        block_ok(
            WrittenBlock::Interface { link_type, snaplen, options: known_idb_options(options) },
            big_endian,
        ),
    ensures
        idb_body(
            read_body(WrittenBlock::Interface { link_type, snaplen, options }, big_endian),
            big_endian,
            f,
        ) == idb_body(
            read_body(
                WrittenBlock::Interface { link_type, snaplen, options: known_idb_options(options) },
                big_endian,
            ),
            big_endian,
            f,
        ),
{
    let k = known_idb_options(options);
    let w1 = WrittenBlock::Interface { link_type, snaplen, options };
    let w2 = WrittenBlock::Interface { link_type, snaplen, options: k };
    lemma_idb_walk(w1, big_endian, f);
    lemma_idb_walk(w2, big_endian, f);
    let init = IdbView { link_type: link_type, snaplen: snaplen, ..f };
    lemma_fold_known(options, init, big_endian);
}

/// A written interface block reads as its options folded in.
proof fn lemma_idb_walk(wb: WrittenBlock, big_endian: bool, f: IdbView)
    requires
        block_ok(wb, big_endian),
        wb is Interface,
    ensures
        idb_body(read_body(wb, big_endian), big_endian, f) == fold_options(
            wb->Interface_options,
            IdbView { link_type: wb->link_type, snaplen: wb->snaplen, ..f },
            idb_decoder(),
            big_endian,
        ),
{
    let bb = read_body(wb, big_endian);
    lemma_trailer(wb, big_endian);
    let (link_type, snaplen, options) = (wb->link_type, wb->snaplen, wb->Interface_options);
    let fixed = u16_bytes(link_type, big_endian) + seq![0u8, 0] + u32_bytes(snaplen, big_endian);
    let t = u32_bytes(block_total(wb, big_endian), big_endian);
    assert(bb =~= fixed + option_list(options, big_endian) + t);
    assert(bb.subrange(0, 2) =~= u16_bytes(link_type, big_endian));
    assert(bb.subrange(4, 8) =~= u32_bytes(snaplen, big_endian));
    lemma_u16_in(bb, 0, link_type, big_endian);
    lemma_u32_in(bb, 4, snaplen, big_endian);
    lemma_options_in(bb, fixed, options, t, big_endian);
    lemma_walk_written(
        bb,
        big_endian,
        8,
        IdbView { link_type: link_type, snaplen: snaplen, ..f },
        idb_decoder(),
        options,
        if options.len() == 0 {
            Seq::<u8>::empty()
        } else {
            end_marker()
        },
    );
}

/// Blocks one after another.
pub open spec fn blocks_bytes(list: Seq<WrittenBlock>, big_endian: bool) -> Seq<u8>
    decreases list.len(),
{
    if list.len() == 0 {
        Seq::empty()
    } else {
        block_bytes(list[0], big_endian) + blocks_bytes(list.drop_first(), big_endian)
    }
}

/// The packets of the packet blocks among `list`, in order.
pub open spec fn packets_of(list: Seq<WrittenBlock>) -> Seq<EpbView>
    decreases list.len(),
{
    if list.len() == 0 {
        Seq::empty()
    } else if list[0] is Packet {
        seq![list[0]->packet] + packets_of(list.drop_first())
    } else {
        packets_of(list.drop_first())
    }
}

/// The input from the reader's position on.
pub open spec fn rest_of(s: PcapngView) -> Seq<u8> {
    s.input.subrange(s.input_pos, s.input.len() as int)
}

/// The bytes at the start of what is left of the input.
proof fn lemma_bytes_at(s: PcapngView, x: Seq<u8>, y: Seq<u8>)
    requires
        0 <= s.input_pos <= s.input.len(),
        rest_of(s) == x + y,
    ensures
        bytes_at(s, x.len() as int) == x,
        s.input_pos + x.len() + y.len() == s.input.len(),
        s.input.subrange(s.input_pos + x.len(), s.input.len() as int) == y,
{
    lemma_split(s.input, s.input_pos, s.input.len() as int, x, y);
}

/// One written block read: what follows it is read next, and a packet
/// block hands out its packet.
/// Reading a written block's type, length and body.
proof fn lemma_block_header(s: PcapngView, wb: WrittenBlock, rest: Seq<u8>)
    requires
        0 <= s.input_pos <= s.input.len(),
        rest_of(s) == block_bytes(wb, s.big_endian) + rest,
        block_ok(wb, s.big_endian),
    ensures
        ({
            let big = s.big_endian;
            let w = bytes_at(s, 8);
            let s1 = after_read(s, 8);
            let n = block_total(wb, big) - 8;
            &&& read_count(s, 8) == 8
            &&& u32_at(w, 0, big) == block_type(wb)
            &&& u32_at(w, 4, big) == block_total(wb, big)
            &&& block_total(wb, big) >= 12
            &&& read_count(s1, n) == n
            &&& bytes_at(s1, n) == read_body(wb, big)
            &&& 0 <= after_read(s1, n).input_pos <= s.input.len()
            &&& rest_of(after_read(s1, n)) == rest
        }),
{
    let big = s.big_endian;
    let total = block_total(wb, big);
    let hdr = u32_bytes(block_type(wb), big) + u32_bytes(total, big);
    let rb = read_body(wb, big);
    assert(block_bytes(wb, big) + rest =~= hdr + (rb + rest));
    lemma_bytes_at(s, hdr, rb + rest);
    let w = bytes_at(s, 8);
    assert(w.subrange(0, 4) =~= u32_bytes(block_type(wb), big));
    assert(w.subrange(4, 8) =~= u32_bytes(total, big));
    lemma_u32_in(w, 0, block_type(wb), big);
    lemma_u32_in(w, 4, total, big);
    let s1 = after_read(s, 8);
    assert(rest_of(s1) =~= rb + rest);
    lemma_trailer(wb, big);
    lemma_bytes_at(s1, rb, rest);
}

/// One written block read: what follows it is read next, and a packet
/// block hands out its packet.
#[verifier::rlimit(40)]
proof fn lemma_block_step(s: PcapngView, wb: WrittenBlock, rest: Seq<u8>) -> (s2: PcapngView)
    requires
        0 <= s.input_pos <= s.input.len(),
        rest_of(s) == block_bytes(wb, s.big_endian) + rest,
        block_ok(wb, s.big_endian),
    ensures
        s2.input == s.input,
        s2.big_endian == s.big_endian,
        0 <= s2.input_pos <= s2.input.len(),
        rest_of(s2) == rest,
        blocks(s).1 == blocks(s2).1,
        blocks(s).2 == (if wb is Packet {
            seq![wb->packet] + blocks(s2).2
        } else {
            blocks(s2).2
        }),
{
    reveal(blocks);
    let big = s.big_endian;
    lemma_block_header(s, wb, rest);
    let s1 = after_read(s, 8);
    let n = block_total(wb, big) - 8;
    let rb = read_body(wb, big);
    let s2 = after_read(s1, n);
    match wb {
        WrittenBlock::Interface { .. } => {
            lemma_idb_read(wb, big, s1.idb);
            let f = idb_body(rb, big, s1.idb)->Some_0;
            assert(idb_step(s1, n) == (PcapngView { idb: f, ..s2 }, 0int));
            PcapngView { idb: f, ..s2 }
        },
        WrittenBlock::Statistics { .. } => {
            lemma_isb_read(wb, big, s1.stats);
            let f = isb_body(rb, big, s1.stats)->Some_0;
            assert(isb_step(s1, n) == (PcapngView { stats: f, ..s2 }, 0int));
            PcapngView { stats: f, ..s2 }
        },
        WrittenBlock::Packet { .. } => {
            lemma_epb_read(wb, big);
            assert(epb_step(s1, crate::model::empty_epb(), n) == (s2, 0int, wb->packet));
            s2
        },
    }
}

/// Written blocks are read back to the end of the input, with result 0,
/// handing out the packets of the packet blocks in order.
pub proof fn lemma_blocks_written(s: PcapngView, list: Seq<WrittenBlock>)
    requires
        0 <= s.input_pos <= s.input.len(),
        rest_of(s) == blocks_bytes(list, s.big_endian),
        forall|i: int| 0 <= i < list.len() ==> block_ok(#[trigger] list[i], s.big_endian),
    ensures
        blocks(s).1 == 0,
        blocks(s).2 == packets_of(list),
    decreases list.len(),
{
    if list.len() == 0 {
        reveal(blocks);
        assert(rest_of(s).len() == 0);
        assert(blocks(s).2 =~= packets_of(list));
    } else {
        assert(block_ok(list[0], s.big_endian));
        let s2 = lemma_block_step(s, list[0], blocks_bytes(list.drop_first(), s.big_endian));
        assert forall|i: int| 0 <= i < list.drop_first().len() implies block_ok(
            #[trigger] list.drop_first()[i],
            s2.big_endian,
        ) by {
            assert(list.drop_first()[i] == list[i + 1]);
        }
        lemma_blocks_written(s2, list.drop_first());
    }
}

/// A section header option that the reader takes from a header whose length
/// is `total`: a comment, hardware, system or application option whose
/// padded value fits the block buffer, and whose first word does not read as
/// the header's length.
pub open spec fn shb_option_ok(o: (u16, Seq<u8>), total: u32, big_endian: bool) -> bool {
    &&& SHB_OP_COMMENT <= o.0 <= SHB_OP_USER_APP
    &&& writable_option(o)
    &&& round_up4(o.1.len() as int) <= PKT_BUFFER_LEN
    &&& u32_at(option_bytes(o.0, o.1, big_endian), 0, big_endian) != total
}

/// The total length of a section header block with `options`.
pub open spec fn shb_total(options: Seq<(u16, Seq<u8>)>, big_endian: bool) -> u32 {
    (28 + option_list(options, big_endian).len()) as u32
}

/// A section header block as a writer lays it out, with `options`.
pub open spec fn shb_file(
    major: u16,
    minor: u16,
    section_len: u64,
    options: Seq<(u16, Seq<u8>)>,
    big_endian: bool,
) -> Seq<u8> {
    let total = shb_total(options, big_endian);
    seq![0x0Au8, 0x0D, 0x0D, 0x0A] + u32_bytes(total, big_endian) + (if big_endian {
        seq![0x1Au8, 0x2B, 0x3C, 0x4D]
    } else {
        seq![0x4Du8, 0x3C, 0x2B, 0x1A]
    }) + u16_bytes(major, big_endian) + u16_bytes(minor, big_endian) + u64_bytes(
        section_len,
        big_endian,
    ) + option_list(options, big_endian) + u32_bytes(total, big_endian)
}

/// Section header options as a writer lays them out, then the header's
/// length: with options, the end marker ends them (0) and the length is left
/// to read; without, the length ends them (1).
proof fn lemma_shb_written(
    s: PcapngView,
    list: Seq<(u16, Seq<u8>)>,
    m: Seq<u8>,
    rest: Seq<u8>,
)
    requires
        0 <= s.input_pos <= s.input.len(),
        rest_of(s) == options_bytes(list, s.big_endian) + m + u32_bytes(
            s.shb.total_len,
            s.big_endian,
        ) + rest,
        m == Seq::<u8>::empty() || m == end_marker(),
        s.shb.total_len >= 28,
        forall|i: int|
            0 <= i < list.len() ==> shb_option_ok(#[trigger] list[i], s.shb.total_len, s.big_endian),
    ensures
        shb_options(s).1 == (if m.len() == 0 {
            1int
        } else {
            0int
        }),
        shb_options(s).0.input == s.input,
        shb_options(s).0.big_endian == s.big_endian,
        shb_options(s).0.shb == s.shb,
        0 <= shb_options(s).0.input_pos <= s.input.len(),
        rest_of(shb_options(s).0) == (if m.len() == 0 {
            rest
        } else {
            u32_bytes(s.shb.total_len, s.big_endian) + rest
        }),
    decreases list.len(),
{
    reveal(shb_options);
    let big = s.big_endian;
    let total = s.shb.total_len;
    let t = u32_bytes(total, big);
    if list.len() == 0 {
        assert(options_bytes(list, big) =~= Seq::<u8>::empty());
        if m.len() == 0 {
            assert(rest_of(s) =~= t + rest);
            lemma_bytes_at(s, t, rest);
            assert(bytes_at(s, 4).subrange(0, 4) =~= t);
            lemma_u32_in(bytes_at(s, 4), 0, total, big);
        } else {
            assert(rest_of(s) =~= m + (t + rest));
            lemma_bytes_at(s, m, t + rest);
            let w = bytes_at(s, 4);
            assert(w[0] == 0 && w[1] == 0 && w[2] == 0 && w[3] == 0);
            assert(u32_at(w, 0, big) == 0);
        }
    } else {
        let next = lemma_shb_one_option(s, list, m, rest);
        assert forall|i: int| 0 <= i < list.drop_first().len() implies shb_option_ok(
            #[trigger] list.drop_first()[i],
            total,
            big,
        ) by {
            assert(list.drop_first()[i] == list[i + 1]);
        }
        lemma_shb_written(next, list.drop_first(), m, rest);
    }
}

/// The first of written section header options read: the options go on
/// from after it.
#[verifier::rlimit(40)]
proof fn lemma_shb_one_option(
    s: PcapngView,
    list: Seq<(u16, Seq<u8>)>,
    m: Seq<u8>,
    rest: Seq<u8>,
) -> (next: PcapngView)
    requires
        0 <= s.input_pos <= s.input.len(),
        rest_of(s) == options_bytes(list, s.big_endian) + m + u32_bytes(
            s.shb.total_len,
            s.big_endian,
        ) + rest,
        list.len() > 0,
        shb_option_ok(list[0], s.shb.total_len, s.big_endian),
    ensures
        shb_options(s) == shb_options(next),
        next.input == s.input,
        next.big_endian == s.big_endian,
        next.shb == s.shb,
        0 <= next.input_pos <= s.input.len(),
        rest_of(next) == options_bytes(list.drop_first(), s.big_endian) + m + u32_bytes(
            s.shb.total_len,
            s.big_endian,
        ) + rest,
        next.hw == (if list[0].0 == 2 {
            list[0].1
        } else {
            s.hw
        }),
        next.os == (if list[0].0 == 3 {
            list[0].1
        } else {
            s.os
        }),
        next.application == (if list[0].0 == 4 {
            list[0].1
        } else {
            s.application
        }),
        next.comment == (if list[0].0 == 1 {
            list[0].1
        } else {
            s.comment
        }),
        next.shb_opts == s.shb_opts | flag_of(list[0].0),
        next.total_len == s.total_len,
{
    reveal(shb_options);
    let big = s.big_endian;
    let total = s.shb.total_len;
    let t = u32_bytes(total, big);
        let o = list[0];
        assert(shb_option_ok(list[0], total, big));
        let ob = option_bytes(o.0, o.1, big);
        let after = options_bytes(list.drop_first(), big) + m + t + rest;
        assert(rest_of(s) =~= ob + after);
        lemma_option_layout(o.0, o.1, big);
        let hdr = ob.subrange(0, 4);
        let val = ob.subrange(4, ob.len() as int);
        assert(ob =~= hdr + val);
        assert(rest_of(s) =~= hdr + (val + after));
        lemma_bytes_at(s, hdr, val + after);
        let w = bytes_at(s, 4);
        assert(w.subrange(0, 2) =~= u16_bytes(o.0, big));
        assert(w.subrange(2, 4) =~= u16_bytes(o.1.len() as u16, big));
        lemma_u16_in(w, 0, o.0, big);
        lemma_u16_in(w, 2, o.1.len() as u16, big);
        assert(u32_at(w, 0, big) == u32_at(ob, 0, big));
        assert(!has4(w, 0, 0, 0, 0, 0));
        let s1 = after_read(s, 4);
        assert(rest_of(s1) =~= val + after);
        lemma_bytes_at(s1, val, after);
        let padded = round_up4(o.1.len() as int);
        assert(val.len() == padded);
        assert(read_count(s1, padded) == padded);
        let s2 = after_read(s1, padded);
        assert(val.subrange(0, o.1.len() as int) =~= o.1);
        assert(bytes_at(s1, o.1.len() as int) =~= bytes_at(s1, padded).subrange(
            0,
            o.1.len() as int,
        ));
        assert(bytes_at(s1, o.1.len() as int) == o.1);
        assert(rest_of(s2) == after);
        let next = if o.0 == SHB_OP_HW {
            PcapngView { hw: o.1, shb_opts: s2.shb_opts | SHB_OPT_HW, ..s2 }
        } else if o.0 == SHB_OP_OS {
            PcapngView { os: o.1, shb_opts: s2.shb_opts | SHB_OPT_OS, ..s2 }
        } else if o.0 == SHB_OP_USER_APP {
            PcapngView { application: o.1, shb_opts: s2.shb_opts | SHB_OPT_USER_APP, ..s2 }
        } else {
            PcapngView { comment: o.1, shb_opts: s2.shb_opts | SHB_OPT_COMMENT, ..s2 }
        };
        next
}

/// Reading the fixed part of a written section header block.
proof fn lemma_shb_header(
    s: PcapngView,
    major: u16,
    minor: u16,
    section_len: u64,
    options: Seq<(u16, Seq<u8>)>,
    list: Seq<WrittenBlock>,
    big_endian: bool,
)
    requires
        28 + option_list(options, big_endian).len() <= u32::MAX,
    ensures
        ({
            let file = shb_file(major, minor, section_len, options, big_endian) + blocks_bytes(
                list,
                big_endian,
            );
            let s0 = PcapngView { input: file, input_pos: 0, ..s };
            let b = bytes_at(s0, 24);
            let total = shb_total(options, big_endian);
            &&& read_count(s0, 24) == 24
            &&& is_shb_magic(b)
            &&& is_magic_be(b) == big_endian
            &&& is_magic_le(b) == !big_endian
            &&& u32_at(b, 4, big_endian) == total
            &&& u16_at(b, 12, big_endian) == major
            &&& u16_at(b, 14, big_endian) == minor
            &&& u64_at(b, 16, big_endian) == section_len
            &&& total >= 28
            &&& 0 <= after_read(s0, 24).input_pos <= file.len()
            &&& rest_of(after_read(s0, 24)) == option_list(options, big_endian) + u32_bytes(
                total,
                big_endian,
            ) + blocks_bytes(list, big_endian)
        }),
{
    let big = big_endian;
    let total = shb_total(options, big);
    let file = shb_file(major, minor, section_len, options, big) + blocks_bytes(list, big);
    let s0 = PcapngView { input: file, input_pos: 0, ..s };
    let magic = seq![0x0Au8, 0x0D, 0x0D, 0x0A];
    let order = if big {
        seq![0x1Au8, 0x2B, 0x3C, 0x4D]
    } else {
        seq![0x4Du8, 0x3C, 0x2B, 0x1A]
    };
    let head = magic + u32_bytes(total, big) + order + u16_bytes(major, big) + u16_bytes(minor, big)
        + u64_bytes(section_len, big);
    let tail = option_list(options, big) + u32_bytes(total, big) + blocks_bytes(list, big);
    assert(head.len() == 24);
    assert(file =~= head + tail);
    assert(rest_of(s0) =~= file);
    lemma_bytes_at(s0, head, tail);
    let b = bytes_at(s0, 24);
    assert(b.subrange(4, 8) =~= u32_bytes(total, big));
    lemma_u32_in(b, 4, total, big);
    assert(b.subrange(12, 14) =~= u16_bytes(major, big));
    assert(b.subrange(14, 16) =~= u16_bytes(minor, big));
    assert(b.subrange(16, 24) =~= u64_bytes(section_len, big));
    lemma_u16_in(b, 12, major, big);
    lemma_u16_in(b, 14, minor, big);
    lemma_u64_in(b, 16, section_len, big);
    assert(b[0] == 0x0A && b[1] == 0x0D && b[2] == 0x0D && b[3] == 0x0A);
    assert(b[8] == order[0] && b[9] == order[1] && b[10] == order[2] && b[11] == order[3]);
    assert(rest_of(after_read(s0, 24)) == tail);
}

/// A capture file as a writer lays it out (a section header block with its
/// options, then interface description, interface statistics and enhanced
/// packet blocks with their options, in either byte order) reads back with
/// result 0 and hands out exactly the packets written, in order, where every
/// block fits the reader's block buffer and every option is one the reader
/// takes.
#[verifier::rlimit(80)]
pub proof fn law_written_file_is_read_back(
    s: PcapngView,
    major: u16,
    minor: u16,
    section_len: u64,
    options: Seq<(u16, Seq<u8>)>,
    list: Seq<WrittenBlock>,
    big_endian: bool,
)
    requires
        28 + option_list(options, big_endian).len() <= u32::MAX,
        forall|i: int|
            0 <= i < options.len() ==> shb_option_ok(
                #[trigger] options[i],
                shb_total(options, big_endian),
                big_endian,
            ),
        forall|i: int| 0 <= i < list.len() ==> block_ok(#[trigger] list[i], big_endian),
    ensures
        ({
            let file = shb_file(major, minor, section_len, options, big_endian) + blocks_bytes(
                list,
                big_endian,
            );
            &&& open_result(s, file).1 == 0
            &&& open_result(s, file).2 == packets_of(list)
        }),
{
    let big = big_endian;
    let total = shb_total(options, big);
    let file = shb_file(major, minor, section_len, options, big) + blocks_bytes(list, big);
    lemma_shb_header(s, major, minor, section_len, options, list, big);
    let s0 = PcapngView { input: file, input_pos: 0, ..s };
    let s1 = after_read(s0, 24);
    let b = bytes_at(s0, 24);
    let s2 = PcapngView {
        big_endian: big,
        shb: ShbView {
            total_len: u32_at(b, 4, big),
            major_version: u16_at(b, 12, big),
            minor_version: u16_at(b, 14, big),
            section_len: u64_at(b, 16, big),
            ..s1.shb
        },
        ..s1
    };
    let m = if options.len() == 0 {
        Seq::<u8>::empty()
    } else {
        end_marker()
    };
    let bl = blocks_bytes(list, big);
    let t = u32_bytes(total, big);
    if options.len() == 0 {
        assert(options_bytes(options, big) =~= Seq::<u8>::empty());
    }
    assert(rest_of(s2) =~= options_bytes(options, big) + m + t + bl);
    lemma_shb_written(s2, options, m, bl);
    let s3 = shb_options(s2).0;
    if options.len() == 0 {
        lemma_blocks_written(s3, list);
    } else {
        lemma_bytes_at(s3, t, bl);
        let s4 = after_read(s3, 4);
        let s5 = PcapngView { total_len: u32_at(bytes_at(s3, 4), 0, big), ..s4 };
        assert(rest_of(s5) == bl);
        lemma_blocks_written(s5, list);
    }
}

// ---------------------------------------------------------------------------
// What each written option is read into.
// ---------------------------------------------------------------------------

/// The value of the last option of code `code` in `list`, if there is one.
pub open spec fn last_value(list: Seq<(u16, Seq<u8>)>, code: u16) -> Option<Seq<u8>>
    decreases list.len(),
{
    if list.len() == 0 {
        None
    } else {
        match last_value(list.drop_first(), code) {
            Some(v) => Some(v),
            None => if list[0].0 == code {
                Some(list[0].1)
            } else {
                None
            },
        }
    }
}

/// The bytes of an option, or `dflt` where there is none.
pub open spec fn bytes_or(v: Option<Seq<u8>>, dflt: Seq<u8>) -> Seq<u8> {
    match v {
        Some(b) => b,
        None => dflt,
    }
}

/// The text that an option's UTF-8 bytes hold, or `dflt` where there is none.
pub open spec fn text_or_else(v: Option<Seq<u8>>, dflt: Seq<char>) -> Seq<char> {
    match v {
        Some(b) => decode_utf8(b),
        None => dflt,
    }
}

/// The first byte of an option, or `dflt` where there is none.
pub open spec fn first_byte_or(v: Option<Seq<u8>>, dflt: u16) -> u16 {
    match v {
        Some(b) => b[0] as u16,
        None => dflt,
    }
}

/// The 64-bit counter an eight-byte option holds, or `dflt`.
pub open spec fn counter_or(v: Option<Seq<u8>>, dflt: u64, big_endian: bool) -> u64 {
    match v {
        Some(b) => u64_at(b, 0, big_endian),
        None => dflt,
    }
}

/// The time an eight-byte option holds, its high 32 bits first, or `dflt`.
pub open spec fn time_or(v: Option<Seq<u8>>, dflt: u64, big_endian: bool) -> u64 {
    match v {
        Some(b) => ((u32_at(b, 0, big_endian) as int) * 0x1_0000_0000 + (u32_at(
            b,
            4,
            big_endian,
        ) as int)) as u64,
        None => dflt,
    }
}

/// An interface record after written `options`, starting from `f`: the
/// name from the last option of code 2, the time resolution from the first
/// byte of the last of code 9, the system from the last of code 12.
pub open spec fn idb_read_as(options: Seq<(u16, Seq<u8>)>, f: IdbView) -> IdbView {
    IdbView {
        link_type: f.link_type,
        snaplen: f.snaplen,
        ifname: text_or_else(last_value(options, 2), f.ifname),
        ts_resol: first_byte_or(last_value(options, 9), f.ts_resol),
        os_str: text_or_else(last_value(options, 12), f.os_str),
    }
}

/// A statistics record after written `options`, starting from `f`: the
/// comment from the last option of code 1, the start and end times from the
/// last of codes 2 and 3, packets received and dropped from the last of codes
/// 4 and 5.
pub open spec fn isb_read_as(options: Seq<(u16, Seq<u8>)>, f: IsbView, big_endian: bool) -> IsbView {
    IsbView {
        intf_id: f.intf_id,
        timestamp: f.timestamp,
        comment: text_or_else(last_value(options, 1), f.comment),
        start_time: time_or(last_value(options, 2), f.start_time, big_endian),
        end_time: time_or(last_value(options, 3), f.end_time, big_endian),
        pkts_rx: counter_or(last_value(options, 4), f.pkts_rx, big_endian),
        pkts_dropped: counter_or(last_value(options, 5), f.pkts_dropped, big_endian),
    }
}

proof fn lemma_fold_idb(list: Seq<(u16, Seq<u8>)>, acc: IdbView, big_endian: bool)
    requires
        forall|i: int| 0 <= i < list.len() ==> idb_option_ok(#[trigger] list[i]),
    ensures
        fold_options(list, acc, idb_decoder(), big_endian) == Some(idb_read_as(list, acc)),
    decreases list.len(),
{
    if list.len() == 0 {
        assert(idb_read_as(list, acc) =~= acc);
    } else {
        let h = list[0];
        let t = list.drop_first();
        assert(idb_option_ok(list[0]));
        assert forall|i: int| 0 <= i < t.len() implies idb_option_ok(#[trigger] t[i]) by {
            assert(t[i] == list[i + 1]);
        }
        let a = crate::model::idb_option(acc, h.0, h.1, big_endian)->Some_0;
        lemma_fold_idb(t, a, big_endian);
        assert(idb_read_as(t, a) =~= idb_read_as(list, acc));
    }
}

proof fn lemma_fold_isb(list: Seq<(u16, Seq<u8>)>, acc: IsbView, big_endian: bool)
    requires
        forall|i: int| 0 <= i < list.len() ==> isb_option_ok(#[trigger] list[i]),
    ensures
        fold_options(list, acc, isb_decoder(), big_endian) == Some(
            isb_read_as(list, acc, big_endian),
        ),
    decreases list.len(),
{
    if list.len() == 0 {
        assert(isb_read_as(list, acc, big_endian) =~= acc);
    } else {
        let h = list[0];
        let t = list.drop_first();
        assert(isb_option_ok(list[0]));
        assert forall|i: int| 0 <= i < t.len() implies isb_option_ok(#[trigger] t[i]) by {
            assert(t[i] == list[i + 1]);
        }
        let a = crate::model::isb_option(acc, h.0, h.1, big_endian)->Some_0;
        lemma_fold_isb(t, a, big_endian);
        assert(isb_read_as(t, a, big_endian) =~= isb_read_as(list, acc, big_endian));
    }
}

/// A written interface description block reads back with the link type and
/// snap length written, the name and system decoded from the last `if_name`
/// (code 2) and `if_os` (code 12) options, and the time resolution from the
/// first byte of the last `if_tsresol` (code 9) option; a field without such
/// an option keeps what it held.
pub proof fn law_interface_block_fields(
    link_type: u16,
    snaplen: u32,
    options: Seq<(u16, Seq<u8>)>,
    big_endian: bool,
    f: IdbView,
)
    requires
        block_ok(WrittenBlock::Interface { link_type, snaplen, options }, big_endian),
    ensures
        idb_body(
            read_body(WrittenBlock::Interface { link_type, snaplen, options }, big_endian),
            big_endian,
            f,
        ) == Some(
            IdbView {
                link_type: link_type,
                snaplen: snaplen,
                ifname: text_or_else(last_value(options, 2), f.ifname),
                ts_resol: first_byte_or(last_value(options, 9), f.ts_resol),
                os_str: text_or_else(last_value(options, 12), f.os_str),
            },
        ),
{
    let wb = WrittenBlock::Interface { link_type, snaplen, options };
    lemma_idb_walk(wb, big_endian, f);
    assert forall|i: int| 0 <= i < options.len() implies idb_option_ok(#[trigger] options[i]) by {
        assert(block_ok(wb, big_endian));
    }
    lemma_fold_idb(options, IdbView { link_type: link_type, snaplen: snaplen, ..f }, big_endian);
}

/// A written interface statistics block reads as its options folded in.
#[verifier::rlimit(40)]
proof fn lemma_isb_walk(wb: WrittenBlock, big_endian: bool, f: IsbView)
    requires
        block_ok(wb, big_endian),
        wb is Statistics,
    ensures
        isb_body(read_body(wb, big_endian), big_endian, f) == fold_options(
            wb->Statistics_options,
            IsbView {
                intf_id: wb->intf_id,
                timestamp: ((wb->ts_high as int) * 0x1_0000_0000 + (wb->ts_low as int)) as u64,
                ..f
            },
            isb_decoder(),
            big_endian,
        ),
{
    let bb = read_body(wb, big_endian);
    lemma_trailer(wb, big_endian);
    let (intf_id, ts_high, ts_low, options) = (
        wb->intf_id,
        wb->ts_high,
        wb->ts_low,
        wb->Statistics_options,
    );
    let fixed = u32_bytes(intf_id, big_endian) + u32_bytes(ts_high, big_endian) + u32_bytes(
        ts_low,
        big_endian,
    );
    let t = u32_bytes(block_total(wb, big_endian), big_endian);
    assert(bb =~= fixed + option_list(options, big_endian) + t);
    assert(bb.subrange(0, 4) =~= u32_bytes(intf_id, big_endian));
    assert(bb.subrange(4, 8) =~= u32_bytes(ts_high, big_endian));
    assert(bb.subrange(8, 12) =~= u32_bytes(ts_low, big_endian));
    lemma_u32_in(bb, 0, intf_id, big_endian);
    lemma_u32_in(bb, 4, ts_high, big_endian);
    lemma_u32_in(bb, 8, ts_low, big_endian);
    lemma_options_in(bb, fixed, options, t, big_endian);
    lemma_walk_written(
        bb,
        big_endian,
        12,
        IsbView {
            intf_id: intf_id,
            timestamp: ((ts_high as int) * 0x1_0000_0000 + (ts_low as int)) as u64,
            ..f
        },
        isb_decoder(),
        options,
        if options.len() == 0 {
            Seq::<u8>::empty()
        } else {
            end_marker()
        },
    );
}

/// A written interface statistics block reads back with the interface and
/// timestamp written, the comment decoded from the last `opt_comment` (code
/// 1) option, the start and end times from the last `isb_starttime` (code 2)
/// and `isb_endtime` (code 3) options, and the packets received and dropped
/// from the last `isb_ifrecv` (code 4) and `isb_ifdrop` (code 5) options; a
/// field without such an option keeps what it held.
pub proof fn law_statistics_block_fields(
    intf_id: u32,
    ts_high: u32,
    ts_low: u32,
    options: Seq<(u16, Seq<u8>)>,
    big_endian: bool,
    f: IsbView,
)
    requires
        block_ok(WrittenBlock::Statistics { intf_id, ts_high, ts_low, options }, big_endian),
    ensures
        isb_body(
            read_body(WrittenBlock::Statistics { intf_id, ts_high, ts_low, options }, big_endian),
            big_endian,
            f,
        ) == Some(
            IsbView {
                intf_id: intf_id,
                timestamp: ((ts_high as int) * 0x1_0000_0000 + (ts_low as int)) as u64,
                comment: text_or_else(last_value(options, 1), f.comment),
                start_time: time_or(last_value(options, 2), f.start_time, big_endian),
                end_time: time_or(last_value(options, 3), f.end_time, big_endian),
                pkts_rx: counter_or(last_value(options, 4), f.pkts_rx, big_endian),
                pkts_dropped: counter_or(last_value(options, 5), f.pkts_dropped, big_endian),
            },
        ),
{
    let wb = WrittenBlock::Statistics { intf_id, ts_high, ts_low, options };
    lemma_isb_walk(wb, big_endian, f);
    assert forall|i: int| 0 <= i < options.len() implies isb_option_ok(#[trigger] options[i]) by {
        assert(block_ok(wb, big_endian));
    }
    lemma_fold_isb(
        options,
        IsbView {
            intf_id: intf_id,
            timestamp: ((ts_high as int) * 0x1_0000_0000 + (ts_low as int)) as u64,
            ..f
        },
        big_endian,
    );
}

/// The flag that a section header option of code `code` sets: comment 1,
/// hardware 2, system 4, application 8.
pub open spec fn flag_of(code: u16) -> u32 {
    if code == 1 {
        1
    } else if code == 2 {
        2
    } else if code == 3 {
        4
    } else if code == 4 {
        8
    } else {
        0
    }
}

/// The flags that written section header options set.
pub open spec fn option_flags(list: Seq<(u16, Seq<u8>)>) -> u32
    decreases list.len(),
{
    if list.len() == 0 {
        0
    } else {
        flag_of(list[0].0) | option_flags(list.drop_first())
    }
}

/// Section header options as a writer lays them out are each stored in the
/// field of their code, the last one of a code winning, and set its flag.
proof fn lemma_shb_written_fields(
    s: PcapngView,
    list: Seq<(u16, Seq<u8>)>,
    m: Seq<u8>,
    rest: Seq<u8>,
)
    requires
        0 <= s.input_pos <= s.input.len(),
        rest_of(s) == options_bytes(list, s.big_endian) + m + u32_bytes(
            s.shb.total_len,
            s.big_endian,
        ) + rest,
        m == Seq::<u8>::empty() || m == end_marker(),
        s.shb.total_len >= 28,
        forall|i: int|
            0 <= i < list.len() ==> shb_option_ok(#[trigger] list[i], s.shb.total_len, s.big_endian),
    ensures
        shb_options(s).0.hw == bytes_or(last_value(list, 2), s.hw),
        shb_options(s).0.os == bytes_or(last_value(list, 3), s.os),
        shb_options(s).0.application == bytes_or(last_value(list, 4), s.application),
        shb_options(s).0.comment == bytes_or(last_value(list, 1), s.comment),
        shb_options(s).0.shb_opts == s.shb_opts | option_flags(list),
        shb_options(s).0.total_len == s.total_len,
    decreases list.len(),
{
    reveal(shb_options);
    let a = s.shb_opts;
    if list.len() == 0 {
        assert(a | 0u32 == a) by (bit_vector);
        lemma_shb_written(s, list, m, rest);
        let big = s.big_endian;
        let t = u32_bytes(s.shb.total_len, big);
        assert(options_bytes(list, big) =~= Seq::<u8>::empty());
        if m.len() == 0 {
            assert(rest_of(s) =~= t + rest);
            lemma_bytes_at(s, t, rest);
            assert(bytes_at(s, 4).subrange(0, 4) =~= t);
            lemma_u32_in(bytes_at(s, 4), 0, s.shb.total_len, big);
        } else {
            assert(rest_of(s) =~= m + (t + rest));
            lemma_bytes_at(s, m, t + rest);
            let w = bytes_at(s, 4);
            assert(w[0] == 0 && w[1] == 0 && w[2] == 0 && w[3] == 0);
        }
        assert(shb_options(s).0.hw == s.hw);
    } else {
        let next = lemma_shb_one_option(s, list, m, rest);
        let total = s.shb.total_len;
        let big = s.big_endian;
        assert forall|i: int| 0 <= i < list.drop_first().len() implies shb_option_ok(
            #[trigger] list.drop_first()[i],
            total,
            big,
        ) by {
            assert(list.drop_first()[i] == list[i + 1]);
        }
        lemma_shb_written_fields(next, list.drop_first(), m, rest);
        let t = list.drop_first();
        assert(bytes_or(last_value(list, 2), s.hw) == bytes_or(last_value(t, 2), next.hw));
        assert(bytes_or(last_value(list, 3), s.os) == bytes_or(last_value(t, 3), next.os));
        let f = flag_of(list[0].0);
        let g = option_flags(list.drop_first());
        assert((a | f) | g == a | (f | g)) by (bit_vector);
    }
}

/// Reading blocks leaves the section header, its options and flags, and
/// the byte order as they were.
pub open spec fn header_kept(a: PcapngView, b: PcapngView) -> bool {
    &&& b.big_endian == a.big_endian
    &&& b.shb == a.shb
    &&& b.total_len == a.total_len
    &&& b.shb_opts == a.shb_opts
    &&& b.hw == a.hw
    &&& b.os == a.os
    &&& b.application == a.application
    &&& b.comment == a.comment
}

proof fn lemma_blocks_keep(s: PcapngView)
    requires
        0 <= s.input_pos <= s.input.len(),
    ensures
        header_kept(s, blocks(s).0),
    decreases s.input.len() - s.input_pos,
{
    reveal(blocks);
    let s1 = after_read(s, 8);
    let w = bytes_at(s, 8);
    let total = u32_at(w, 4, s.big_endian);
    if read_count(s, 8) == 8 && total >= 8 {
        let n = total - 8;
        lemma_blocks_keep(idb_step(s1, n).0);
        lemma_blocks_keep(isb_step(s1, n).0);
        lemma_blocks_keep(epb_step(s1, crate::model::empty_epb(), n).0);
    }
}

/// A capture file as a writer lays it out reads back with the section
/// header written: its byte order, total length, major and minor version
/// and section length; each section header option stored in the field of
/// its code (hardware 2, system 3, application 4, comment 1; the last of a
/// code winning, a field without one keeping what it held); the flag of
/// each option set and none cleared; and, where there are options, the
/// length that follows them.
#[verifier::rlimit(80)]
pub proof fn law_written_header_is_read_back(
    s: PcapngView,
    major: u16,
    minor: u16,
    section_len: u64,
    options: Seq<(u16, Seq<u8>)>,
    list: Seq<WrittenBlock>,
    big_endian: bool,
)
    requires
        28 + option_list(options, big_endian).len() <= u32::MAX,
        forall|i: int|
            0 <= i < options.len() ==> shb_option_ok(
                #[trigger] options[i],
                shb_total(options, big_endian),
                big_endian,
            ),
        forall|i: int| 0 <= i < list.len() ==> block_ok(#[trigger] list[i], big_endian),
    ensures
        ({
            let file = shb_file(major, minor, section_len, options, big_endian) + blocks_bytes(
                list,
                big_endian,
            );
            let r = open_result(s, file).0;
            &&& r.big_endian == big_endian
            &&& r.shb.total_len == shb_total(options, big_endian)
            &&& r.shb.major_version == major
            &&& r.shb.minor_version == minor
            &&& r.shb.section_len == section_len
            &&& r.hw == bytes_or(last_value(options, 2), s.hw)
            &&& r.os == bytes_or(last_value(options, 3), s.os)
            &&& r.application == bytes_or(last_value(options, 4), s.application)
            &&& r.comment == bytes_or(last_value(options, 1), s.comment)
            &&& r.shb_opts == s.shb_opts | option_flags(options)
            &&& options.len() > 0 ==> r.total_len == shb_total(options, big_endian)
        }),
{
    let big = big_endian;
    let total = shb_total(options, big);
    let file = shb_file(major, minor, section_len, options, big) + blocks_bytes(list, big);
    lemma_shb_header(s, major, minor, section_len, options, list, big);
    let s0 = PcapngView { input: file, input_pos: 0, ..s };
    let s1 = after_read(s0, 24);
    let b = bytes_at(s0, 24);
    let s2 = PcapngView {
        big_endian: big,
        shb: ShbView {
            total_len: u32_at(b, 4, big),
            major_version: u16_at(b, 12, big),
            minor_version: u16_at(b, 14, big),
            section_len: u64_at(b, 16, big),
            ..s1.shb
        },
        ..s1
    };
    let m = if options.len() == 0 {
        Seq::<u8>::empty()
    } else {
        end_marker()
    };
    let bl = blocks_bytes(list, big);
    let t = u32_bytes(total, big);
    if options.len() == 0 {
        assert(options_bytes(options, big) =~= Seq::<u8>::empty());
    }
    assert(rest_of(s2) =~= options_bytes(options, big) + m + t + bl);
    lemma_shb_written(s2, options, m, bl);
    lemma_shb_written_fields(s2, options, m, bl);
    let s3 = shb_options(s2).0;
    if options.len() == 0 {
        lemma_blocks_keep(s3);
        assert(open_result(s, file) == blocks(s3));
    } else {
        lemma_bytes_at(s3, t, bl);
        assert(bytes_at(s3, 4).subrange(0, 4) =~= t);
        lemma_u32_in(bytes_at(s3, 4), 0, total, big);
        let s4 = after_read(s3, 4);
        let s5 = PcapngView { total_len: u32_at(bytes_at(s3, 4), 0, big), ..s4 };
        lemma_blocks_keep(s5);
        assert(open_result(s, file) == blocks(s5));
    }
}

} // verus!
