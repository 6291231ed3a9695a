//! The pcapng reader: the blocks it hands out and the reader itself.

use vstd::prelude::*;
use vstd::utf8::valid_utf8;
use vstd::utf8::decode_utf8;
use vstd::slice::slice_subrange;
use vstd::slice::slice_to_vec;
use crate::bytes::read_u16;
use crate::bytes::read_u32;
use crate::bytes::read_u64;
use crate::bytes::padded_len;
use crate::bytes::round_up4;
use crate::bytes::u16_at;
use crate::bytes::u32_at;
use crate::bytes::u64_at;
use crate::model::PKT_BUFFER_LEN;
use crate::model::SHB_OP_COMMENT;
use crate::model::SHB_OP_HW;
use crate::model::SHB_OP_OS;
use crate::model::SHB_OP_USER_APP;
use crate::model::SHB_INTF_DESC_BLOCK;
use crate::model::SHB_INTF_STATS_BLOCK;
use crate::model::SHB_ENH_PKT_BLOCK;
use crate::model::SHB_OPT_COMMENT;
use crate::model::SHB_OPT_HW;
use crate::model::SHB_OPT_OS;
use crate::model::SHB_OPT_USER_APP;
use crate::model::IDB_OPT_IFNAME;
use crate::model::IDB_OPT_TSRESOL;
use crate::model::IDB_OPT_OS;
use crate::model::ISB_OPT_COMMENT;
use crate::model::ISB_OPT_START_TIME;
use crate::model::ISB_OPT_END_TIME;
use crate::model::ISB_OPT_PKT_RECV;
use crate::model::ISB_OPT_PKT_DROP;
use crate::model::EpbView;
use crate::model::IsbView;
use crate::model::ShbView;
use crate::model::IdbView;
use crate::model::PcapngView;
use crate::model::empty_epb;
use crate::model::empty_isb;
use crate::model::empty_shb;
use crate::model::initial_state;
use crate::model::read_count;
use crate::model::after_read;
use crate::model::bytes_at;
use crate::model::ts_at;
use crate::model::trailer_ok;
use crate::model::option_walk;
use crate::model::idb_decoder;
use crate::model::isb_decoder;
use crate::model::idb_step;
use crate::model::isb_step;
use crate::model::epb_step;
use crate::model::shb_options;
use crate::model::blocks;
use crate::model::open_result;
use crate::model::is_magic_be;

verus! {

/// `String::from_utf8`: it succeeds exactly when the bytes are valid UTF-8,
/// and the string then holds the characters that the bytes encode.
#[verifier::external_body]
fn string_from_utf8(bytes: Vec<u8>) -> (r: Option<String>)
    ensures
        r is Some <==> valid_utf8(bytes@),
        r matches Some(t) ==> t@ == decode_utf8(bytes@),
{
    String::from_utf8(bytes).ok()
}

/// Copies `src[from..from + k]` over the first `k` bytes of `dst`.
fn copy_prefix(dst: &mut Vec<u8>, src: &Vec<u8>, from: usize, k: usize)
    requires
        k <= old(dst)@.len(),
        from + k <= src.len(),
    ensures
        final(dst)@ == src@.subrange(from as int, from + k) + old(dst)@.subrange(
            k as int,
            old(dst)@.len() as int,
        ),
{
    let ghost old_dst = dst@;
    let mut i: usize = 0;
    while i < k
        invariant
            i <= k,
            k <= old_dst.len(),
            from + k <= src.len(),
            dst@.len() == old_dst.len(),
            forall|j: int| 0 <= j < i ==> dst@[j] == src@[from + j],
            forall|j: int| i <= j < old_dst.len() ==> dst@[j] == old_dst[j],
        decreases k - i,
    {
        dst.set(i, src[from + i]);
        i = i + 1;
    }
    assert(dst@ =~= src@.subrange(from as int, from + k) + old_dst.subrange(
        k as int,
        old_dst.len() as int,
    ));
}

/// Header of a section header block.
struct pcapng_shb {
    block_type: u32,
    total_len: u32,
    byte_order_magic: u32,
    major_version: u16,
    minor_version: u16,
    section_len: u64,
}

impl View for pcapng_shb {
    type V = ShbView;

    closed spec fn view(&self) -> ShbView {
        ShbView {
            block_type: self.block_type,
            total_len: self.total_len,
            byte_order_magic: self.byte_order_magic,
            major_version: self.major_version,
            minor_version: self.minor_version,
            section_len: self.section_len,
        }
    }
}

impl pcapng_shb {
    fn new() -> (h: Self)
        ensures
            h@ == empty_shb(),
    {
        Self {
            block_type: 0,
            total_len: 0,
            byte_order_magic: 0,
            major_version: 0,
            minor_version: 0,
            section_len: 0,
        }
    }
}

/// An enhanced packet block: the interface, timestamp, lengths and the
/// captured bytes of one packet.
pub struct enhanced_pkt_block {
    pub intf_id: u32,
    pub ts_high: u32,
    pub ts_low: u32,
    pub captured_len: u32,
    pub original_len: u32,
    pub packet_data: Vec<u8>,
}

impl View for enhanced_pkt_block {
    type V = EpbView;

    open spec fn view(&self) -> EpbView {
        EpbView {
            intf_id: self.intf_id,
            ts_high: self.ts_high,
            ts_low: self.ts_low,
            captured_len: self.captured_len,
            original_len: self.original_len,
            packet_data: self.packet_data@,
        }
    }
}

/// The views of a sequence of packet blocks.
pub open spec fn epb_views(v: Seq<enhanced_pkt_block>) -> Seq<EpbView> {
    v.map_values(|e: enhanced_pkt_block| e@)
}

impl enhanced_pkt_block {
    /// A block with every field zero and no packet data.
    pub fn new() -> (e: Self)
        ensures
            e@ == empty_epb(),
    {
        Self {
            intf_id: 0,
            ts_high: 0,
            ts_low: 0,
            captured_len: 0,
            original_len: 0,
            packet_data: Vec::new(),
        }
    }
}

/// An interface statistics block.
pub struct intf_stats_block {
    pub intf_id: u32,
    pub timestamp: u64,
    pub comment: String,
    pub start_time: u64,
    pub end_time: u64,
    pub pkts_rx: u64,
    pub pkts_dropped: u64,
}

impl View for intf_stats_block {
    type V = IsbView;

    open spec fn view(&self) -> IsbView {
        IsbView {
            intf_id: self.intf_id,
            timestamp: self.timestamp,
            comment: self.comment@,
            start_time: self.start_time,
            end_time: self.end_time,
            pkts_rx: self.pkts_rx,
            pkts_dropped: self.pkts_dropped,
        }
    }
}

impl intf_stats_block {
    /// A block with every field zero and an empty comment.
    pub fn new() -> (b: Self)
        ensures
            b@ == empty_isb(),
    {
        Self {
            intf_id: 0,
            timestamp: 0,
            comment: String::new(),
            start_time: 0,
            end_time: 0,
            pkts_rx: 0,
            pkts_dropped: 0,
        }
    }
}

/// The bytes at `off .. off + k` of the first `n` bytes of `buf` are those of
/// `buf`, and so are the values decoded there.
proof fn lemma_prefix(buf: Seq<u8>, n: int, off: int, k: int, big_endian: bool)
    requires
        0 <= off,
        0 <= k,
        off + k <= n <= buf.len(),
    ensures
        buf.subrange(0, n).subrange(off, off + k) == buf.subrange(off, off + k),
        k >= 2 ==> u16_at(buf.subrange(0, n), off, big_endian) == u16_at(buf, off, big_endian),
        k >= 4 ==> u32_at(buf.subrange(0, n), off, big_endian) == u32_at(buf, off, big_endian),
        k >= 8 ==> u64_at(buf.subrange(0, n), off, big_endian) == u64_at(buf, off, big_endian),
{
    assert(buf.subrange(0, n).subrange(off, off + k) =~= buf.subrange(off, off + k));
}

/// The values decoded at the start of the window `off .. off + k` of `buf`
/// are those decoded at `off` in `buf`.
proof fn lemma_window(buf: Seq<u8>, off: int, k: int, big_endian: bool)
    requires
        0 <= off,
        0 <= k,
        off + k <= buf.len(),
    ensures
        k >= 1 ==> buf.subrange(off, off + k)[0] == buf[off],
        k >= 8 ==> u64_at(buf.subrange(off, off + k), 0, big_endian) == u64_at(buf, off, big_endian),
        k >= 8 ==> ts_at(buf.subrange(off, off + k), 0, big_endian) == ts_at(buf, off, big_endian),
{
    let w = buf.subrange(off, off + k);
    if k >= 8 {
        assert(w[0] == buf[off] && w[1] == buf[off + 1] && w[2] == buf[off + 2] && w[3] == buf[off
            + 3]);
        assert(w[4] == buf[off + 4] && w[5] == buf[off + 5] && w[6] == buf[off + 6] && w[7]
            == buf[off + 7]);
    }
}

/// Reads a timestamp stored as its high 32 bits, then its low 32 bits.
fn read_ts(buf: &[u8], off: usize, big_endian: bool) -> (v: u64)
    requires
        off + 8 <= buf.len(),
    ensures
        v == ts_at(buf@, off as int, big_endian),
{
    let hi = read_u32(buf, off, big_endian);
    let lo = read_u32(buf, off + 4, big_endian);
    let v = ((hi as u64) << 32) | (lo as u64);
    assert(v == hi * 0x1_0000_0000 + lo) by (bit_vector)
        requires
            v == ((hi as u64) << 32) | (lo as u64),
    ;
    v
}

/// The text that a value holds, where it was read, else `dflt`.
pub open spec fn text_or(t: Option<String>, dflt: Seq<char>) -> Seq<char> {
    match t {
        Some(s) => s@,
        None => dflt,
    }
}

/// A pcapng reader over the bytes of one capture file.
pub struct pcapng {
    input: Vec<u8>,
    input_pos: usize,
    total_len: u32,
    shb_hdr: pcapng_shb,
    pkt_buffer: Vec<u8>,
    shb_opts: u32,
    hw: Vec<u8>,
    os: Vec<u8>,
    application: Vec<u8>,
    comment: Vec<u8>,
    link_type: u16,
    snaplen: u32,
    ifname: String,
    ts_resol: u16,
    os_str: String,
    big_endian: bool,
    offset: usize,
    stats: intf_stats_block,
}

impl View for pcapng {
    type V = PcapngView;

    closed spec fn view(&self) -> PcapngView {
        PcapngView {
            input: self.input@,
            input_pos: self.input_pos as int,
            big_endian: self.big_endian,
            shb: self.shb_hdr@,
            total_len: self.total_len,
            shb_opts: self.shb_opts,
            hw: self.hw@,
            os: self.os@,
            application: self.application@,
            comment: self.comment@,
            idb: IdbView {
                link_type: self.link_type,
                snaplen: self.snaplen,
                ifname: self.ifname@,
                ts_resol: self.ts_resol,
                os_str: self.os_str@,
            },
            stats: self.stats@,
        }
    }
}

impl pcapng {
    /// The block buffer has its fixed size and the read position lies in
    /// the input.
    closed spec fn wf(&self) -> bool {
        &&& self.pkt_buffer@.len() == PKT_BUFFER_LEN
        &&& self.input_pos <= self.input@.len()
    }

    /// The reader's block buffer, into which blocks are read.
    pub closed spec fn block_buffer(&self) -> Seq<u8> {
        self.pkt_buffer@
    }

    /// Where in the block buffer the next field is decoded.
    pub closed spec fn read_offset(&self) -> int {
        self.offset as int
    }

    /// A reader with no input, a zeroed block buffer and empty fields.
    pub fn new() -> (p: Self)
        ensures
            p@ == initial_state(),
            p.block_buffer() == Seq::new(PKT_BUFFER_LEN as nat, |i: int| 0u8),
            p.read_offset() == 0,
    {
        let p = Self {
            input: Vec::new(),
            input_pos: 0,
            total_len: 0,
            shb_hdr: pcapng_shb::new(),
            pkt_buffer: vec![0u8; PKT_BUFFER_LEN],
            shb_opts: 0,
            hw: Vec::new(),
            os: Vec::new(),
            application: Vec::new(),
            comment: Vec::new(),
            link_type: 0,
            snaplen: 0,
            ifname: String::new(),
            ts_resol: 0,
            os_str: String::new(),
            big_endian: false,
            offset: 0,
            stats: intf_stats_block::new(),
        };
        assert(p@ =~= initial_state());
        assert(p.block_buffer() =~= Seq::new(PKT_BUFFER_LEN as nat, |i: int| 0u8));
        p
    }

    /// Reads up to `n` bytes of the input into the start of the block buffer.
    fn read(&mut self, n: usize) -> (r: isize)
        requires
            old(self).wf(),
        ensures
            final(self).wf(),
            final(self)@ == after_read(old(self)@, n as int),
            r == read_count(old(self)@, n as int),
            r >= 0 ==> final(self).pkt_buffer@.subrange(0, r as int) == bytes_at(
                old(self)@,
                r as int,
            ),
            r <= 0 ==> final(self).pkt_buffer@ == old(self).pkt_buffer@,
            final(self).offset == old(self).offset,
    {
        if n > self.pkt_buffer.len() {
            return -1;
        }
        if self.input_pos >= self.input.len() {
            assert(self.pkt_buffer@.subrange(0, 0) =~= bytes_at(old(self)@, 0));
            return 0;
        }
        let avail = self.input.len() - self.input_pos;
        let k = if n <= avail {
            n
        } else {
            avail
        };
        copy_prefix(&mut self.pkt_buffer, &self.input, self.input_pos, k);
        self.input_pos = self.input_pos + k;
        assert(self.pkt_buffer@.subrange(0, k as int) =~= bytes_at(old(self)@, k as int));
        assert(self@ =~= after_read(old(self)@, n as int));
        k as isize
    }

    fn get_u16(&mut self) -> (v: u16)
        requires
            old(self).offset + 2 <= old(self).pkt_buffer.len(),
        ensures
            v == u16_at(old(self).pkt_buffer@, old(self).offset as int, old(self).big_endian),
            final(self)@ == old(self)@,
            final(self).wf() == old(self).wf(),
            final(self).pkt_buffer == old(self).pkt_buffer,
            final(self).offset == old(self).offset + 2,
    {
        let v = read_u16(self.pkt_buffer.as_slice(), self.offset, self.big_endian);
        self.offset = self.offset + 2;
        v
    }

    fn get_u32(&mut self) -> (v: u32)
        requires
            old(self).offset + 4 <= old(self).pkt_buffer.len(),
        ensures
            v == u32_at(old(self).pkt_buffer@, old(self).offset as int, old(self).big_endian),
            final(self)@ == old(self)@,
            final(self).wf() == old(self).wf(),
            final(self).pkt_buffer == old(self).pkt_buffer,
            final(self).offset == old(self).offset + 4,
    {
        let v = read_u32(self.pkt_buffer.as_slice(), self.offset, self.big_endian);
        self.offset = self.offset + 4;
        v
    }

    /// The text of the next `len` bytes; `None` where they are not valid UTF-8,
    /// and the offset then stays.
    fn get_str(&mut self, len: usize) -> (r: Option<String>)
        requires
            old(self).offset + len <= old(self).pkt_buffer.len(),
        ensures
            ({
                let b = old(self).pkt_buffer@.subrange(
                    old(self).offset as int,
                    old(self).offset + len,
                );
                &&& r is Some <==> valid_utf8(b)
                &&& r matches Some(t) ==> t@ == decode_utf8(b) && final(self).offset
                    == old(self).offset + len
                &&& r is None ==> final(self).offset == old(self).offset
            }),
            final(self)@ == old(self)@,
            final(self).wf() == old(self).wf(),
            final(self).pkt_buffer == old(self).pkt_buffer,
    {
        let bytes = slice_to_vec(
            slice_subrange(self.pkt_buffer.as_slice(), self.offset, self.offset + len),
        );
        match string_from_utf8(bytes) {
            Some(t) => {
                self.offset = self.offset + len;
                Some(t)
            },
            None => None,
        }
    }

    fn get_u64(&mut self) -> (v: u64)
        requires
            old(self).offset + 8 <= old(self).pkt_buffer.len(),
        ensures
            v == u64_at(old(self).pkt_buffer@, old(self).offset as int, old(self).big_endian),
            final(self)@ == old(self)@,
            final(self).wf() == old(self).wf(),
            final(self).pkt_buffer == old(self).pkt_buffer,
            final(self).offset == old(self).offset + 8,
    {
        let v = read_u64(self.pkt_buffer.as_slice(), self.offset, self.big_endian);
        self.offset = self.offset + 8;
        v
    }

    /// The block body held by the first `n` bytes of the buffer ends with the
    /// block's total length, `n + 8`.
    fn block_trailer_ok(&self, n: usize) -> (ok: bool)
        requires
            n <= self.pkt_buffer.len(),
            n <= PKT_BUFFER_LEN,
        ensures
            ok == trailer_ok(self.pkt_buffer@.subrange(0, n as int), self.big_endian),
    {
        if n < 4 {
            return false;
        }
        let t = read_u32(self.pkt_buffer.as_slice(), n - 4, self.big_endian);
        proof {
            lemma_prefix(self.pkt_buffer@, n as int, n - 4, 4, self.big_endian);
        }
        t as u64 == n as u64 + 8
    }

    /// Section header options, up to the block's trailing length (1), an
    /// all-zero word (0) or an error (-1).
    #[verifier::rlimit(40)]
    fn parse_options(&mut self) -> (r: i32)
        requires
            old(self).wf(),
        ensures
            final(self).wf(),
            final(self)@ == shb_options(old(self)@).0,
            r == shb_options(old(self)@).1,
            final(self).big_endian == old(self).big_endian,
    {
        let ghost goal = shb_options(self@);
        loop
            invariant
                self.wf(),
                goal == shb_options(old(self)@),
                shb_options(self@) == goal,
                self.big_endian == old(self).big_endian,
            decreases self.input@.len() - self.input_pos,
        {
            proof {
                reveal(shb_options);
            }
            let ghost s = self@;
            let res = self.read(4);
            if res != 4 {
                return -1;
            }
            proof {
                lemma_prefix(self.pkt_buffer@, 4, 0, 4, self.big_endian);
                lemma_prefix(self.pkt_buffer@, 4, 2, 2, self.big_endian);
            }
            self.offset = 0;
            let val_32 = self.get_u32();
            if val_32 == self.shb_hdr.total_len {
                return 1;
            }
            if self.pkt_buffer[0] == 0 && self.pkt_buffer[1] == 0 && self.pkt_buffer[2] == 0
                && self.pkt_buffer[3] == 0 {
                return 0;
            }
            // the option's code and length are the word just read
            self.offset = 0;
            let option = self.get_u16();
            let option_len = self.get_u16();
            let padded = padded_len(option_len as u32) as usize;
            let ghost s1 = self@;
            // read including the pad bytes that follow the value
            let res = self.read(padded);
            if res as i64 != padded as i64 {
                return -1;
            }
            proof {
                lemma_prefix(self.pkt_buffer@, padded as int, 0, option_len as int, false);
                assert(bytes_at(s1, padded as int).subrange(0, option_len as int) =~= bytes_at(
                    s1,
                    option_len as int,
                ));
            }
            let value = slice_to_vec(
                slice_subrange(self.pkt_buffer.as_slice(), 0, option_len as usize),
            );
            if option == SHB_OP_HW {
                self.hw = value;
                self.shb_opts = self.shb_opts | SHB_OPT_HW;
            } else if option == SHB_OP_OS {
                self.os = value;
                self.shb_opts = self.shb_opts | SHB_OPT_OS;
            } else if option == SHB_OP_USER_APP {
                self.application = value;
                self.shb_opts = self.shb_opts | SHB_OPT_USER_APP;
            } else if option == SHB_OP_COMMENT {
                self.comment = value;
                self.shb_opts = self.shb_opts | SHB_OPT_COMMENT;
            } else {
                return -1;
            }
        }
    }

    /// An interface description block whose body, after its type and length,
    /// has `block_total_len` bytes: link type, snap length and options, with
    /// every option value and its padding skipped.  The fields change only
    /// where the block reads with 0.
    fn parse_intf_desc_block(&mut self, block_total_len: u32) -> (r: isize)
        requires
            old(self).wf(),
        ensures
            final(self).wf(),
            final(self)@ == idb_step(old(self)@, block_total_len as int).0,
            r == idb_step(old(self)@, block_total_len as int).1,
            r == 0 || r == -1,
    {
        let ghost s = self@;
        self.offset = 0;
        let res = self.read(block_total_len as usize);
        if res as i64 != block_total_len as i64 {
            return -1;
        }
        let n = block_total_len as usize;
        let ghost s1 = self@;
        let ghost b = self.pkt_buffer@.subrange(0, n as int);
        assert(b == bytes_at(s, n as int));
        if n < 12 || !self.block_trailer_ok(n) {
            return -1;
        }
        let big = self.big_endian;
        self.offset = 0;
        let link_type = self.get_u16();
        self.offset = self.offset + 2;
        let snaplen = self.get_u32();
        proof {
            lemma_prefix(self.pkt_buffer@, n as int, 0, 2, big);
            lemma_prefix(self.pkt_buffer@, n as int, 4, 4, big);
        }
        let mut ifname: Option<String> = None;
        let mut ts_resol: u16 = self.ts_resol;
        let mut os_str: Option<String> = None;
        let end: usize = n - 4;
        let ghost goal = option_walk(
            b,
            big,
            8,
            IdbView { link_type: link_type, snaplen: snaplen, ..s.idb },
            idb_decoder(),
        );
        loop
            invariant_except_break
                option_walk(
                    b,
                    big,
                    self.offset as int,
                    IdbView {
                        link_type: link_type,
                        snaplen: snaplen,
                        ifname: text_or(ifname, s.idb.ifname),
                        ts_resol: ts_resol,
                        os_str: text_or(os_str, s.idb.os_str),
                    },
                    idb_decoder(),
                ) == goal,
            invariant
                self.wf(),
                n <= PKT_BUFFER_LEN,
                n >= 12,
                end == n - 4,
                8 <= self.offset <= end,
                self.pkt_buffer@.subrange(0, n as int) == b,
                big == self.big_endian,
                self@ == s1,
                s1.idb == s.idb,
                s == old(self)@,
                n as int == block_total_len as int,
                idb_step(s, n as int) == (match goal {
                    Some(f) => (PcapngView { idb: f, ..s1 }, 0int),
                    None => (s1, -1int),
                }),
                goal == option_walk(
                    b,
                    big,
                    8,
                    IdbView { link_type: link_type, snaplen: snaplen, ..s.idb },
                    idb_decoder(),
                ),
            ensures
                self.wf(),
                self@ == s1,
                goal == Some(
                    IdbView {
                        link_type: link_type,
                        snaplen: snaplen,
                        ifname: text_or(ifname, s.idb.ifname),
                        ts_resol: ts_resol,
                        os_str: text_or(os_str, s.idb.os_str),
                    },
                ),
            decreases end - self.offset,
        {
            if self.offset == end {
                break;
            }
            if self.offset + 4 > end {
                assert(goal is None);
                return -1;
            }
            let ghost off = self.offset as int;
            let opt_name = self.get_u16();
            let opt_len = self.get_u16();
            proof {
                lemma_prefix(self.pkt_buffer@, n as int, off, 2, big);
                lemma_prefix(self.pkt_buffer@, n as int, off + 2, 2, big);
            }
            if opt_name == 0 && opt_len == 0 {
                // the end-of-options marker must stand right before the
                // trailing length
                if self.offset != end {
                    return -1;
                }
                break;
            }
            let v = self.offset;
            let padded = padded_len(opt_len as u32) as usize;
            if padded > end - v {
                return -1;
            }
            proof {
                lemma_prefix(self.pkt_buffer@, n as int, v as int, opt_len as int, big);
                lemma_window(self.pkt_buffer@, v as int, opt_len as int, big);
            }
            if opt_name == IDB_OPT_IFNAME {
                match self.get_str(opt_len as usize) {
                    Some(t) => {
                        ifname = Some(t);
                    },
                    None => {
                        return -1;
                    },
                }
            } else if opt_name == IDB_OPT_TSRESOL {
                if opt_len < 1 {
                    return -1;
                }
                ts_resol = self.pkt_buffer[v] as u16;
            } else if opt_name == IDB_OPT_OS {
                match self.get_str(opt_len as usize) {
                    Some(t) => {
                        os_str = Some(t);
                    },
                    None => {
                        return -1;
                    },
                }
            }
            // skip the value and the pad bytes after it
            self.offset = v + padded;
        }
        self.link_type = link_type;
        self.snaplen = snaplen;
        self.ts_resol = ts_resol;
        match ifname {
            Some(t) => {
                self.ifname = t;
            },
            None => {},
        }
        match os_str {
            Some(t) => {
                self.os_str = t;
            },
            None => {},
        }
        assert(self@ =~= idb_step(s, n as int).0);
        0
    }

    /// An interface statistics block whose body, after its type and length,
    /// has `block_total_len` bytes: interface, timestamp and options.  The
    /// statistics change only where the block reads with 0.
    #[verifier::rlimit(60)]
    fn parse_intf_stats_block(&mut self, block_total_len: u32) -> (r: isize)
        requires
            old(self).wf(),
        ensures
            final(self).wf(),
            final(self)@ == isb_step(old(self)@, block_total_len as int).0,
            r == isb_step(old(self)@, block_total_len as int).1,
            r == 0 || r == -1,
    {
        let ghost s = self@;
        self.offset = 0;
        let res = self.read(block_total_len as usize);
        if res as i64 != block_total_len as i64 {
            return -1;
        }
        let n = block_total_len as usize;
        let ghost s1 = self@;
        let ghost b = self.pkt_buffer@.subrange(0, n as int);
        assert(b == bytes_at(s, n as int));
        if n < 16 || !self.block_trailer_ok(n) {
            return -1;
        }
        let big = self.big_endian;
        self.offset = 0;
        let intf_id = self.get_u32();
        let timestamp = read_ts(self.pkt_buffer.as_slice(), 4, big);
        proof {
            lemma_prefix(self.pkt_buffer@, n as int, 0, 4, big);
            lemma_prefix(self.pkt_buffer@, n as int, 4, 4, big);
            lemma_prefix(self.pkt_buffer@, n as int, 8, 4, big);
        }
        let mut comment: Option<String> = None;
        let mut start_time: u64 = self.stats.start_time;
        let mut end_time: u64 = self.stats.end_time;
        let mut pkts_rx: u64 = self.stats.pkts_rx;
        let mut pkts_dropped: u64 = self.stats.pkts_dropped;
        let end: usize = n - 4;
        self.offset = 12;
        let ghost goal = option_walk(
            b,
            big,
            12,
            IsbView { intf_id: intf_id, timestamp: timestamp, ..s.stats },
            isb_decoder(),
        );
        loop
            invariant_except_break
                option_walk(
                    b,
                    big,
                    self.offset as int,
                    IsbView {
                        intf_id: intf_id,
                        timestamp: timestamp,
                        comment: text_or(comment, s.stats.comment),
                        start_time: start_time,
                        end_time: end_time,
                        pkts_rx: pkts_rx,
                        pkts_dropped: pkts_dropped,
                    },
                    isb_decoder(),
                ) == goal,
            invariant
                self.wf(),
                n <= PKT_BUFFER_LEN,
                n >= 16,
                end == n - 4,
                12 <= self.offset <= end,
                self.pkt_buffer@.subrange(0, n as int) == b,
                big == self.big_endian,
                self@ == s1,
                s1.stats == s.stats,
                s == old(self)@,
                n as int == block_total_len as int,
                isb_step(s, n as int) == (match goal {
                    Some(f) => (PcapngView { stats: f, ..s1 }, 0int),
                    None => (s1, -1int),
                }),
                goal == option_walk(
                    b,
                    big,
                    12,
                    IsbView { intf_id: intf_id, timestamp: timestamp, ..s.stats },
                    isb_decoder(),
                ),
            ensures
                self.wf(),
                self@ == s1,
                goal == Some(
                    IsbView {
                        intf_id: intf_id,
                        timestamp: timestamp,
                        comment: text_or(comment, s.stats.comment),
                        start_time: start_time,
                        end_time: end_time,
                        pkts_rx: pkts_rx,
                        pkts_dropped: pkts_dropped,
                    },
                ),
            decreases end - self.offset,
        {
            if self.offset == end {
                break;
            }
            if self.offset + 4 > end {
                return -1;
            }
            let ghost off = self.offset as int;
            let option_type = self.get_u16();
            let option_len = self.get_u16();
            proof {
                lemma_prefix(self.pkt_buffer@, n as int, off, 2, big);
                lemma_prefix(self.pkt_buffer@, n as int, off + 2, 2, big);
            }
            if option_type == 0 && option_len == 0 {
                // the end-of-options marker must stand right before the
                // trailing length
                if self.offset != end {
                    return -1;
                }
                break;
            }
            let v = self.offset;
            let padded = padded_len(option_len as u32) as usize;
            if padded > end - v {
                return -1;
            }
            proof {
                lemma_prefix(self.pkt_buffer@, n as int, v as int, option_len as int, big);
                lemma_window(self.pkt_buffer@, v as int, option_len as int, big);
            }
            if option_type == ISB_OPT_COMMENT {
                match self.get_str(option_len as usize) {
                    Some(t) => {
                        comment = Some(t);
                    },
                    None => {
                        return -1;
                    },
                }
            } else if option_type == ISB_OPT_START_TIME || option_type == ISB_OPT_END_TIME
                || option_type == ISB_OPT_PKT_RECV || option_type == ISB_OPT_PKT_DROP {
                if option_len != 8 {
                    return -1;
                }
                if option_type == ISB_OPT_START_TIME {
                    start_time = read_ts(self.pkt_buffer.as_slice(), v, big);
                } else if option_type == ISB_OPT_END_TIME {
                    end_time = read_ts(self.pkt_buffer.as_slice(), v, big);
                } else if option_type == ISB_OPT_PKT_RECV {
                    pkts_rx = read_u64(self.pkt_buffer.as_slice(), v, big);
                } else {
                    pkts_dropped = read_u64(self.pkt_buffer.as_slice(), v, big);
                }
            } else {
                return -1;
            }
            // skip the value and the pad bytes after it
            self.offset = v + padded;
        }
        self.stats.intf_id = intf_id;
        self.stats.timestamp = timestamp;
        self.stats.start_time = start_time;
        self.stats.end_time = end_time;
        self.stats.pkts_rx = pkts_rx;
        self.stats.pkts_dropped = pkts_dropped;
        match comment {
            Some(t) => {
                self.stats.comment = t;
            },
            None => {},
        }
        assert(self@ =~= isb_step(s, n as int).0);
        0
    }

    /// An enhanced packet block whose body, after its type and length, has
    /// `block_total_len` bytes, decoded into `epb`: its five header fields,
    /// then the captured bytes appended to `epb.packet_data`, then the
    /// trailing length checked.  Options after the padded data are skipped.
    /// A read that does not give the whole body gives its count.
    fn parse_enhanced_pkt_block(&mut self, epb: &mut enhanced_pkt_block, block_total_len: u32) -> (r: isize)
        requires
            old(self).wf(),
        ensures
            final(self).wf(),
            final(self)@ == epb_step(old(self)@, old(epb)@, block_total_len as int).0,
            r == epb_step(old(self)@, old(epb)@, block_total_len as int).1,
            final(epb)@ == epb_step(old(self)@, old(epb)@, block_total_len as int).2,
            -1 <= r < PKT_BUFFER_LEN,
    {
        let ghost s = self@;
        self.offset = 0;
        let res = self.read(block_total_len as usize);
        if res as i64 != block_total_len as i64 {
            // the count of a read that fell short is the result
            return res;
        }
        let n = block_total_len as usize;
        let ghost b = self.pkt_buffer@.subrange(0, n as int);
        assert(b == bytes_at(s, n as int));
        if n < 24 {
            return -1;
        }
        let big = self.big_endian;
        self.offset = 0;
        epb.intf_id = self.get_u32();
        epb.ts_high = self.get_u32();
        epb.ts_low = self.get_u32();
        epb.captured_len = self.get_u32();
        epb.original_len = self.get_u32();
        proof {
            lemma_prefix(self.pkt_buffer@, n as int, 0, 4, big);
            lemma_prefix(self.pkt_buffer@, n as int, 4, 4, big);
            lemma_prefix(self.pkt_buffer@, n as int, 8, 4, big);
            lemma_prefix(self.pkt_buffer@, n as int, 12, 4, big);
            lemma_prefix(self.pkt_buffer@, n as int, 16, 4, big);
        }
        // the captured bytes and their padding lie before the trailing length
        let captured_len = epb.captured_len;
        if captured_len as usize > n - 24 {
            assert(round_up4(captured_len as int) >= captured_len) by (nonlinear_arith);
            return -1;
        }
        let padded = padded_len(captured_len) as usize;
        if padded > n - 24 {
            return -1;
        }
        let cap = captured_len as usize;
        proof {
            lemma_prefix(self.pkt_buffer@, n as int, 20, cap as int, big);
        }
        let ghost old_data = epb.packet_data@;
        epb.packet_data.extend_from_slice(
            slice_subrange(self.pkt_buffer.as_slice(), 20, 20 + cap),
        );
        assert(epb.packet_data@ =~= old_data + b.subrange(20, 20 + cap));
        self.offset = 20 + padded;
        if !self.block_trailer_ok(n) {
            return -1;
        }
        0
    }

    /// The blocks after the section header, until the input ends, a block of
    /// type zero, or an error.  Each enhanced packet block read is appended to
    /// `packets`, in order.
    fn parse_blocks(&mut self, packets: &mut Vec<enhanced_pkt_block>) -> (r: isize)
        requires
            old(self).wf(),
        ensures
            final(self).wf(),
            final(self)@ == blocks(old(self)@).0,
            r == blocks(old(self)@).1,
            epb_views(final(packets)@) == epb_views(old(packets)@) + blocks(old(self)@).2,
            -1 <= r < PKT_BUFFER_LEN,
            old(self).input_pos >= old(self).input@.len() ==> final(self).pkt_buffer@ == old(
                self,
            ).pkt_buffer@,
    {
        let ghost goal = blocks(self@);
        let ghost start = epb_views(packets@);
        loop
            invariant
                self.wf(),
                goal == blocks(old(self)@),
                start == epb_views(old(packets)@),
                blocks(self@).0 == goal.0,
                blocks(self@).1 == goal.1,
                epb_views(packets@) + blocks(self@).2 == start + goal.2,
                old(self).input_pos >= old(self).input@.len() ==> (self.pkt_buffer@ == old(
                    self,
                ).pkt_buffer@ && self.input_pos == old(self).input_pos && self.input@ == old(
                    self,
                ).input@),
            decreases self.input@.len() - self.input_pos,
        {
            proof {
                reveal(blocks);
            }
            let ghost s = self@;
            assert(epb_views(packets@) =~= epb_views(packets@) + Seq::<EpbView>::empty());
            self.offset = 0;
            let res = self.read(8);
            if res == 0 {
                return 0;
            } else if res != 8 {
                return -1;
            }
            proof {
                lemma_prefix(self.pkt_buffer@, 8, 0, 4, self.big_endian);
                lemma_prefix(self.pkt_buffer@, 8, 4, 4, self.big_endian);
            }
            let block_name = self.get_u32();
            if block_name == 0 {
                return 0;
            }
            let block_total_len = self.get_u32();
            if block_name != SHB_INTF_DESC_BLOCK && block_name != SHB_ENH_PKT_BLOCK && block_name
                != SHB_INTF_STATS_BLOCK {
                return -1;
            }
            if block_total_len < 8 {
                return -1;
            }
            if block_name == SHB_INTF_DESC_BLOCK {
                let res = self.parse_intf_desc_block(block_total_len - 8);
                if res != 0 {
                    return -1;
                }
            } else if block_name == SHB_INTF_STATS_BLOCK {
                // a statistics block that fails does not stop the reading
                let _ = self.parse_intf_stats_block(block_total_len - 8);
            } else {
                let mut epb = enhanced_pkt_block::new();
                let res = self.parse_enhanced_pkt_block(&mut epb, block_total_len - 8);
                if res != 0 {
                    return res;
                }
                let ghost before = epb_views(packets@);
                let ghost e = epb_step(after_read(s, 8), empty_epb(), block_total_len - 8).2;
                assert(epb@ == e) by {
                    assert(epb@.packet_data =~= e.packet_data);
                }
                packets.push(epb);
                assert(epb_views(packets@) =~= before.push(e));
                assert(epb_views(packets@) + blocks(self@).2 =~= before + blocks(s).2);
            }
        }
    }

    /// Reads the capture file whose bytes are `contents`: the section header
    /// block, its options, then the blocks that follow.  Returns the result
    /// code (0 when the input ends or a block of type zero comes, -1 on an
    /// error, the bytes that were left when a packet block is cut short) and
    /// the enhanced packet blocks read, in order.
    pub fn open(&mut self, contents: Vec<u8>) -> (res: (i32, Vec<enhanced_pkt_block>))
        ensures
            final(self)@ == open_result(old(self)@, contents@).0,
            res.0 == open_result(old(self)@, contents@).1,
            epb_views(res.1@) == open_result(old(self)@, contents@).2,
    {
        let mut packets: Vec<enhanced_pkt_block> = Vec::new();
        proof {
            assert(epb_views(packets@) =~= Seq::<EpbView>::empty());
        }
        if self.pkt_buffer.len() != PKT_BUFFER_LEN {
            self.pkt_buffer = vec![0u8; PKT_BUFFER_LEN];
        }
        self.input = contents;
        self.input_pos = 0;
        let ghost s0 = self@;
        assert(s0 == PcapngView { input: contents@, input_pos: 0, ..old(self)@ });

        // read the header
        let res = self.read(24);
        if res != 24 {
            return (-1, packets);
        }
        assert(self.pkt_buffer@.subrange(0, 24) == bytes_at(s0, 24));
        proof {
            assert forall|j: int| 0 <= j < 24 implies #[trigger] self.pkt_buffer@[j] == bytes_at(
                s0,
                24,
            )[j] by {
                assert(self.pkt_buffer@[j] == self.pkt_buffer@.subrange(0, 24)[j]);
            }
        }
        // validate the section header block type
        if !(self.pkt_buffer[0] == 0x0A && self.pkt_buffer[1] == 0x0D && self.pkt_buffer[2] == 0x0D
            && self.pkt_buffer[3] == 0x0A) {
            return (-1, packets);
        }
        // determine the byte order
        if self.pkt_buffer[8] == 0x1A && self.pkt_buffer[9] == 0x2B && self.pkt_buffer[10] == 0x3C
            && self.pkt_buffer[11] == 0x4D {
            self.big_endian = true;
        } else if self.pkt_buffer[8] == 0x4D && self.pkt_buffer[9] == 0x3C && self.pkt_buffer[10]
            == 0x2B && self.pkt_buffer[11] == 0x1A {
            self.big_endian = false;
        } else {
            return (-1, packets);
        }
        proof {
            lemma_prefix(self.pkt_buffer@, 24, 4, 4, self.big_endian);
            lemma_prefix(self.pkt_buffer@, 24, 12, 2, self.big_endian);
            lemma_prefix(self.pkt_buffer@, 24, 14, 2, self.big_endian);
            lemma_prefix(self.pkt_buffer@, 24, 16, 8, self.big_endian);
        }
        // the total length, now that the byte order is known
        self.offset = 4;
        self.shb_hdr.total_len = self.get_u32();
        // the version and the section length
        self.offset = 12;
        self.shb_hdr.major_version = self.get_u16();
        self.shb_hdr.minor_version = self.get_u16();
        self.shb_hdr.section_len = self.get_u64();
        let ghost b = bytes_at(s0, 24);
        let ghost big = self.big_endian;
        assert(big == is_magic_be(b));
        assert(self@ == PcapngView {
            big_endian: big,
            shb: ShbView {
                total_len: u32_at(b, 4, big),
                major_version: u16_at(b, 12, big),
                minor_version: u16_at(b, 14, big),
                section_len: u64_at(b, 16, big),
                ..after_read(s0, 24).shb
            },
            ..after_read(s0, 24)
        });

        let res = self.parse_options();
        let ghost s3 = self@;
        if res == -1 {
            return (-1, packets);
        } else if res == 0 {
            // an all-zero word ended the options: the block length follows
            self.offset = 0;
            let res = self.read(4);
            if res != 4 {
                return (-1, packets);
            }
            proof {
                lemma_prefix(self.pkt_buffer@, 4, 0, 4, self.big_endian);
            }
            self.total_len = self.get_u32();
            assert(self.total_len == u32_at(bytes_at(s3, 4), 0, self.big_endian));
            assert(self@ == PcapngView {
                total_len: u32_at(bytes_at(s3, 4), 0, big),
                ..after_read(s3, 4)
            });
        }
        let ghost s5 = self@;
        assert(open_result(old(self)@, contents@) == blocks(s5));
        let r = self.parse_blocks(&mut packets);
        proof {
            assert(epb_views(packets@) =~= Seq::<EpbView>::empty() + open_result(
                old(self)@,
                contents@,
            ).2);
        }
        (r as i32, packets)
    }
}

} // verus!
