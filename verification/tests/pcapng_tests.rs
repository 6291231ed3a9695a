use pcapng::bytes::padded_len;
use pcapng::bytes::read_u16;
use pcapng::bytes::read_u32;
use pcapng::bytes::read_u64;
use pcapng::pcapng::enhanced_pkt_block;
use pcapng::pcapng::intf_stats_block;
use pcapng::pcapng::pcapng as Reader;

fn u16b(x: u16, big: bool) -> Vec<u8> {
    if big { x.to_be_bytes().to_vec() } else { x.to_le_bytes().to_vec() }
}

fn u32b(x: u32, big: bool) -> Vec<u8> {
    if big { x.to_be_bytes().to_vec() } else { x.to_le_bytes().to_vec() }
}

fn u64b(x: u64, big: bool) -> Vec<u8> {
    if big { x.to_be_bytes().to_vec() } else { x.to_le_bytes().to_vec() }
}

/// A section header block without options.
fn shb(big: bool) -> Vec<u8> {
    let mut v = vec![0x0A, 0x0D, 0x0D, 0x0A];
    v.extend(u32b(28, big));
    if big {
        v.extend([0x1A, 0x2B, 0x3C, 0x4D]);
    } else {
        v.extend([0x4D, 0x3C, 0x2B, 0x1A]);
    }
    v.extend(u16b(1, big));
    v.extend(u16b(0, big));
    v.extend(u64b(0xffff_ffff_ffff_ffff, big));
    v.extend(u32b(28, big));
    v
}

/// An enhanced packet block holding `data`.
fn epb(big: bool, intf: u32, ts: (u32, u32), data: &[u8], original_len: u32) -> Vec<u8> {
    let cap = data.len();
    let padded = (cap + 3) & !3;
    let total = (32 + padded) as u32;
    let mut v = u32b(6, big);
    v.extend(u32b(total, big));
    v.extend(u32b(intf, big));
    v.extend(u32b(ts.0, big));
    v.extend(u32b(ts.1, big));
    v.extend(u32b(cap as u32, big));
    v.extend(u32b(original_len, big));
    v.extend_from_slice(data);
    v.extend(vec![0u8; padded - cap]);
    v.extend(u32b(total, big));
    v
}

/// A block of type `kind` whose body is `body`, with a correct length.
fn block(big: bool, kind: u32, body: &[u8]) -> Vec<u8> {
    let total = (12 + body.len()) as u32;
    let mut v = u32b(kind, big);
    v.extend(u32b(total, big));
    v.extend_from_slice(body);
    v.extend(u32b(total, big));
    v
}

fn idb_body(big: bool, options: &[(u16, &[u8])]) -> Vec<u8> {
    let mut v = u16b(1, big);
    v.extend([0, 0]);
    v.extend(u32b(65535, big));
    v.extend(options_bytes(big, options));
    v
}

/// Options, each value padded to four bytes, then the end-of-options marker.
fn options_bytes(big: bool, options: &[(u16, &[u8])]) -> Vec<u8> {
    let mut v = Vec::new();
    for (code, value) in options {
        v.extend(u16b(*code, big));
        v.extend(u16b(value.len() as u16, big));
        v.extend_from_slice(value);
        v.extend(vec![0u8; ((value.len() + 3) & !3) - value.len()]);
    }
    if !options.is_empty() {
        v.extend([0, 0, 0, 0]);
    }
    v
}

fn open_bytes(bytes: Vec<u8>) -> (i32, Vec<enhanced_pkt_block>) {
    let mut p = Reader::new();
    p.open(bytes)
}

#[test]
fn test_pcapng() {
    let mut file = shb(false);
    file.extend(epb(false, 0, (1, 2), &[1, 2, 3, 4, 5], 60));
    let mut p_handle = Reader::new();
    let (res, packets) = p_handle.open(file);
    for epb in &packets {
        println!("Enhanced Packet Block:");
        println!("\tCaptured packet Length: {}", epb.captured_len);
        println!("\tOriginal packet Length: {}", epb.original_len);
        println!("\tPacket Length: {}", epb.packet_data.len());
    }
    println!("res {}", res);
    assert_eq!(res, 0);
    assert_eq!(packets.len(), 1);
}

#[test]
fn new_blocks_are_empty() {
    let e = enhanced_pkt_block::new();
    assert_eq!((e.intf_id, e.ts_high, e.ts_low, e.captured_len, e.original_len), (0, 0, 0, 0, 0));
    assert!(e.packet_data.is_empty());
    let s = intf_stats_block::new();
    assert_eq!((s.intf_id, s.timestamp, s.start_time, s.end_time, s.pkts_rx, s.pkts_dropped), (0, 0, 0, 0, 0, 0));
    assert_eq!(s.comment, "");
}

#[test]
fn reads_integers_in_both_orders() {
    let buf = [0x01, 0x02, 0x03, 0x04, 0x05, 0x06, 0x07, 0x08, 0x09];
    assert_eq!(read_u16(&buf, 1, true), 0x0203);
    assert_eq!(read_u16(&buf, 1, false), 0x0302);
    assert_eq!(read_u32(&buf, 0, true), 0x01020304);
    assert_eq!(read_u32(&buf, 0, false), 0x04030201);
    assert_eq!(read_u64(&buf, 1, true), 0x0203040506070809);
    assert_eq!(read_u64(&buf, 1, false), 0x0908070605040302);
    assert_eq!(read_u64(&buf, 1, false), u64::from_le_bytes([2, 3, 4, 5, 6, 7, 8, 9]));
}

#[test]
fn pads_to_four() {
    assert_eq!(padded_len(0), 0);
    assert_eq!(padded_len(1), 4);
    assert_eq!(padded_len(4), 4);
    assert_eq!(padded_len(5), 8);
    assert_eq!(padded_len(0xffff_fffc), 0xffff_fffc);
}

#[test]
fn header_only_file_has_no_packets() {
    for big in [false, true] {
        let (res, packets) = open_bytes(shb(big));
        assert_eq!(res, 0);
        assert!(packets.is_empty());
    }
}

#[test]
fn packets_are_read_back_in_either_order() {
    for big in [false, true] {
        let mut file = shb(big);
        file.extend(epb(big, 3, (0x11, 0x22), &[9, 8, 7], 1500));
        file.extend(epb(big, 4, (0x33, 0x44), &[1, 2, 3, 4, 5, 6, 7, 8], 8));
        let (res, packets) = open_bytes(file);
        assert_eq!(res, 0);
        assert_eq!(packets.len(), 2);
        let a = &packets[0];
        assert_eq!((a.intf_id, a.ts_high, a.ts_low, a.captured_len, a.original_len), (3, 0x11, 0x22, 3, 1500));
        assert_eq!(a.packet_data, vec![9, 8, 7]);
        let b = &packets[1];
        assert_eq!((b.intf_id, b.ts_high, b.ts_low, b.captured_len, b.original_len), (4, 0x33, 0x44, 8, 8));
        assert_eq!(b.packet_data, vec![1, 2, 3, 4, 5, 6, 7, 8]);
    }
}

#[test]
fn short_file_is_refused() {
    let (res, packets) = open_bytes(vec![0x0A, 0x0D, 0x0D, 0x0A]);
    assert_eq!(res, -1);
    assert!(packets.is_empty());
}

#[test]
fn wrong_block_magic_is_refused() {
    let mut file = shb(false);
    file[0] = 0x0B;
    assert_eq!(open_bytes(file).0, -1);
}

#[test]
fn unknown_byte_order_is_refused() {
    let mut file = shb(false);
    file[8] = 0;
    assert_eq!(open_bytes(file).0, -1);
}

#[test]
fn section_options_are_read() {
    for big in [false, true] {
        let opts = options_bytes(big, &[(2, b"abc"), (3, b"Linux"), (4, b"app"), (1, b"note")]);
        let total = (28 + opts.len()) as u32;
        let mut file = vec![0x0A, 0x0D, 0x0D, 0x0A];
        file.extend(u32b(total, big));
        if big {
            file.extend([0x1A, 0x2B, 0x3C, 0x4D]);
        } else {
            file.extend([0x4D, 0x3C, 0x2B, 0x1A]);
        }
        file.extend(u16b(1, big));
        file.extend(u16b(0, big));
        file.extend(u64b(0, big));
        // the end-of-options marker is an all-zero word: the length follows
        file.extend(opts);
        file.extend(u32b(total, big));
        file.extend(epb(big, 1, (0, 0), &[7], 1));
        let (res, packets) = open_bytes(file);
        assert_eq!(res, 0);
        assert_eq!(packets.len(), 1);
    }
}

#[test]
fn section_option_with_unknown_code_is_refused() {
    let opts = options_bytes(false, &[(9, b"abc")]);
    let total = (28 + opts.len()) as u32;
    let mut file = vec![0x0A, 0x0D, 0x0D, 0x0A];
    file.extend(u32b(total, false));
    file.extend([0x4D, 0x3C, 0x2B, 0x1A]);
    file.extend(u16b(1, false));
    file.extend(u16b(0, false));
    file.extend(u64b(0, false));
    file.extend(opts);
    file.extend(u32b(total, false));
    assert_eq!(open_bytes(file).0, -1);
}

#[test]
fn zero_word_ends_section_options() {
    // an all-zero word, then the section length
    let mut file = shb(false);
    file.truncate(24);
    file.extend([0, 0, 0, 0]);
    file.extend(u32b(28, false));
    file.extend(epb(false, 1, (0, 0), &[7], 1));
    let (res, packets) = open_bytes(file);
    assert_eq!(res, 0);
    assert_eq!(packets.len(), 1);
    assert_eq!(packets[0].packet_data, vec![7]);
}

#[test]
fn unknown_block_is_refused() {
    let mut file = shb(false);
    file.extend(block(false, 3, &[0, 0, 0, 0]));
    file.extend(epb(false, 1, (0, 0), &[7], 1));
    let (res, packets) = open_bytes(file);
    assert_eq!(res, -1);
    assert!(packets.is_empty());
}

#[test]
fn block_type_zero_ends_reading() {
    let mut file = shb(false);
    file.extend(epb(false, 1, (0, 0), &[7], 1));
    file.extend([0, 0, 0, 0, 0, 0, 0, 0]);
    file.extend(epb(false, 2, (0, 0), &[8], 1));
    let (res, packets) = open_bytes(file);
    assert_eq!(res, 0);
    assert_eq!(packets.len(), 1);
}

#[test]
fn block_length_below_eight_is_refused() {
    let mut file = shb(false);
    file.extend(u32b(6, false));
    file.extend(u32b(4, false));
    assert_eq!(open_bytes(file).0, -1);
}

#[test]
fn packet_trailer_mismatch_is_refused() {
    let mut file = shb(false);
    let mut b = epb(false, 1, (0, 0), &[1, 2, 3, 4], 4);
    let n = b.len();
    b[n - 4] ^= 1;
    file.extend(b);
    let (res, packets) = open_bytes(file);
    assert_eq!(res, -1);
    assert!(packets.is_empty());
}

#[test]
fn truncated_packet_block_gives_the_bytes_left() {
    // the body should have 28 bytes; 12 are left
    let mut file = shb(false);
    let b = epb(false, 1, (0, 0), &[1, 2, 3, 4], 4);
    file.extend_from_slice(&b[..20]);
    let (res, packets) = open_bytes(file);
    assert_eq!(res, 12);
    assert!(packets.is_empty());
}

#[test]
fn packet_block_cut_after_its_length_is_handed_out_empty() {
    let mut file = shb(false);
    let b = epb(false, 1, (0, 0), &[1, 2, 3, 4], 4);
    file.extend_from_slice(&b[..8]);
    let (res, packets) = open_bytes(file);
    assert_eq!(res, 0);
    assert_eq!(packets.len(), 1);
    let e = &packets[0];
    assert_eq!((e.intf_id, e.ts_high, e.ts_low, e.captured_len, e.original_len), (0, 0, 0, 0, 0));
    assert!(e.packet_data.is_empty());
}

#[test]
fn packet_options_are_skipped() {
    let mut file = shb(false);
    let data = [1u8, 2, 3];
    let opts = options_bytes(false, &[(2, &[0, 0, 0, 1]), (1, b"hello")]);
    let total = (32 + 4 + opts.len()) as u32;
    let mut b = u32b(6, false);
    b.extend(u32b(total, false));
    b.extend(u32b(0, false));
    b.extend(u32b(5, false));
    b.extend(u32b(6, false));
    b.extend(u32b(3, false));
    b.extend(u32b(3, false));
    b.extend(data);
    b.push(0);
    b.extend(opts);
    b.extend(u32b(total, false));
    file.extend(b);
    let (res, packets) = open_bytes(file);
    assert_eq!(res, 0);
    assert_eq!(packets.len(), 1);
    assert_eq!(packets[0].packet_data, vec![1, 2, 3]);
    assert_eq!((packets[0].ts_high, packets[0].ts_low), (5, 6));
}

#[test]
fn packet_larger_than_the_buffer_is_refused() {
    let mut file = shb(false);
    let data = vec![0xAB; 5000];
    file.extend(epb(false, 1, (0, 0), &data, 5000));
    let (res, packets) = open_bytes(file);
    assert_eq!(res, -1);
    assert!(packets.is_empty());
}

#[test]
fn captured_length_beyond_the_buffer_is_refused() {
    let mut file = shb(false);
    let mut b = epb(false, 1, (0, 0), &[1, 2, 3, 4], 4);
    b[20..24].copy_from_slice(&u32b(5000, false));
    file.extend(b);
    assert_eq!(open_bytes(file).0, -1);
}

#[test]
fn interface_description_is_read() {
    for big in [false, true] {
        let mut file = shb(big);
        file.extend(block(
            big,
            1,
            &idb_body(big, &[(2, b"eth0"), (9, &[6]), (4, &[10, 0, 0, 1, 255, 0, 0, 0]), (12, b"Linux")]),
        ));
        file.extend(epb(big, 0, (0, 0), &[5, 6], 2));
        let (res, packets) = open_bytes(file);
        assert_eq!(res, 0);
        assert_eq!(packets.len(), 1);
    }
}

#[test]
fn interface_without_options_is_passed_over() {
    let mut body = u16b(1, false);
    body.extend([0, 0]);
    body.extend(u32b(65535, false));
    let mut file = shb(false);
    file.extend(block(false, 1, &body));
    file.extend(epb(false, 0, (0, 0), &[5], 1));
    let (res, packets) = open_bytes(file);
    assert_eq!(res, 0);
    assert_eq!(packets.len(), 1);
}

#[test]
fn interface_name_that_is_not_utf8_is_refused() {
    let mut file = shb(false);
    file.extend(block(false, 1, &idb_body(false, &[(2, &[0xff, 0xfe, 0xfd, 0xfc])])));
    file.extend(epb(false, 0, (0, 0), &[5, 6], 2));
    let (res, packets) = open_bytes(file);
    assert_eq!(res, -1);
    assert!(packets.is_empty());
}

#[test]
fn interface_trailer_mismatch_is_refused() {
    let mut file = shb(false);
    let mut b = block(false, 1, &idb_body(false, &[(2, b"eth0")]));
    let n = b.len();
    b[n - 4] ^= 2;
    file.extend(b);
    assert_eq!(open_bytes(file).0, -1);
}

#[test]
fn statistics_are_read_and_reading_goes_on() {
    let mut body = u32b(0, false);
    body.extend(u64b(77, false));
    body.extend(u16b(4, false));
    body.extend(u16b(8, false));
    body.extend(u64b(1000, false));
    body.extend([0, 0, 0, 0]);
    let mut file = shb(false);
    file.extend(block(false, 5, &body));
    file.extend(epb(false, 0, (0, 0), &[1], 1));
    let (res, packets) = open_bytes(file);
    assert_eq!(res, 0);
    assert_eq!(packets.len(), 1);
}

#[test]
fn failing_statistics_block_is_passed_over() {
    // option code 9 is not a statistics option: the block fails, reading goes on
    let mut body = u32b(0, false);
    body.extend(u64b(77, false));
    body.extend(u16b(9, false));
    body.extend(u16b(8, false));
    body.extend(u64b(1000, false));
    body.extend([0, 0, 0, 0]);
    let mut file = shb(false);
    file.extend(block(false, 5, &body));
    file.extend(epb(false, 0, (0, 0), &[1], 1));
    let (res, packets) = open_bytes(file);
    assert_eq!(res, 0);
    assert_eq!(packets.len(), 1);
    assert_eq!(packets[0].packet_data, vec![1]);
}

#[test]
fn statistics_without_options_are_read() {
    let mut body = u32b(3, true);
    body.extend(u32b(1, true));
    body.extend(u32b(2, true));
    let mut file = shb(true);
    file.extend(block(true, 5, &body));
    file.extend(epb(true, 0, (0, 0), &[1], 1));
    let (res, packets) = open_bytes(file);
    assert_eq!(res, 0);
    assert_eq!(packets.len(), 1);
}

#[test]
fn statistics_comment_is_padded_once() {
    let mut body = u32b(0, false);
    body.extend(u64b(77, false));
    body.extend(options_bytes(false, &[(1, b"abc"), (4, &1000u64.to_le_bytes())]));
    let mut file = shb(false);
    file.extend(block(false, 5, &body));
    file.extend(epb(false, 0, (0, 0), &[1], 1));
    let (res, packets) = open_bytes(file);
    assert_eq!(res, 0);
    assert_eq!(packets.len(), 1);
}

#[test]
fn statistics_counter_of_wrong_length_is_passed_over() {
    let mut body = u32b(0, false);
    body.extend(u64b(77, false));
    body.extend(options_bytes(false, &[(4, &[1, 2, 3, 4])]));
    let mut file = shb(false);
    file.extend(block(false, 5, &body));
    file.extend(epb(false, 0, (0, 0), &[2, 3], 2));
    let (res, packets) = open_bytes(file);
    assert_eq!(res, 0);
    assert_eq!(packets.len(), 1);
}

#[test]
fn option_running_past_the_block_is_refused() {
    let mut body = u16b(1, false);
    body.extend([0, 0]);
    body.extend(u32b(65535, false));
    body.extend(u16b(2, false));
    body.extend(u16b(40, false));
    body.extend(b"eth0");
    let mut file = shb(false);
    file.extend(block(false, 1, &body));
    assert_eq!(open_bytes(file).0, -1);
}

#[test]
fn reader_can_be_opened_again() {
    let mut p = Reader::new();
    let mut file = shb(true);
    file.extend(epb(true, 0, (0, 0), &[1, 2], 2));
    let (res, packets) = p.open(file.clone());
    assert_eq!((res, packets.len()), (0, 1));
    let (res, packets) = p.open(file);
    assert_eq!((res, packets.len()), (0, 1));
}

/// A little-endian section header of total length `total` whose options
/// `opts` are written as they stand.
fn shb_with(total: u32, opts: &[u8]) -> Vec<u8> {
    let mut file = vec![0x0A, 0x0D, 0x0D, 0x0A];
    file.extend(u32b(total, false));
    file.extend([0x4D, 0x3C, 0x2B, 0x1A]);
    file.extend(u16b(1, false));
    file.extend(u16b(0, false));
    file.extend(u64b(0, false));
    file.extend_from_slice(opts);
    file.extend(u32b(total, false));
    file
}

#[test]
fn section_option_ended_by_the_length() {
    // one hardware option "abc", no end marker: the block length follows
    let file = shb_with(32, &[0x02, 0x00, 0x03, 0x00, 0x61, 0x62, 0x63, 0x00]);
    let (res, packets) = open_bytes(file);
    assert_eq!(res, 0);
    assert!(packets.is_empty());
}

#[test]
fn interface_time_resolution_is_padded() {
    let body = [1, 0, 0, 0, 0, 0, 4, 0, 9, 0, 1, 0, 6, 0, 0, 0, 0, 0, 0, 0];
    let mut file = shb(false);
    file.extend(block(false, 1, &body));
    file.extend(epb(false, 0, (0, 0), &[1], 1));
    let (res, packets) = open_bytes(file);
    assert_eq!(res, 0);
    assert_eq!(packets.len(), 1);
}

#[test]
fn unknown_interface_option_with_a_fake_end_is_skipped() {
    // option 100 of length 8 holds an end marker and a length: it is skipped,
    // and the real trailer is checked
    let mut body = u16b(1, false);
    body.extend([0, 0]);
    body.extend(u32b(65535, false));
    body.extend(u16b(100, false));
    body.extend(u16b(8, false));
    body.extend([0, 0, 0, 0]);
    body.extend(u32b(36, false));
    body.extend([0, 0, 0, 0]);
    let mut file = shb(false);
    let mut b = block(false, 1, &body);
    let n = b.len();
    b[n - 4] ^= 1;
    file.extend(b);
    assert_eq!(open_bytes(file).0, -1);
}

#[test]
fn statistics_comment_scenario() {
    let body = [1, 0, 0, 0, 0, 0, 0, 0, 0, 0, 0, 0, 1, 0, 3, 0, 0x61, 0x62, 0x63, 0, 0, 0, 0, 0];
    let mut file = shb(false);
    file.extend(block(false, 5, &body));
    let (res, packets) = open_bytes(file);
    assert_eq!(res, 0);
    assert!(packets.is_empty());
}

#[test]
fn truncated_statistics_block_ends_the_input() {
    // the statistics block fails, and the input has ended
    let mut file = shb(false);
    let mut body = u32b(0, false);
    body.extend(u64b(77, false));
    let b = block(false, 5, &body);
    file.extend_from_slice(&b[..12]);
    let (res, packets) = open_bytes(file);
    assert_eq!(res, 0);
    assert!(packets.is_empty());
}

#[test]
fn whole_written_file_is_read_back() {
    for big in [false, true] {
        let opts = options_bytes(big, &[(3, b"Linux"), (1, b"capture")]);
        let total = (28 + opts.len()) as u32;
        let mut file = vec![0x0A, 0x0D, 0x0D, 0x0A];
        file.extend(u32b(total, big));
        if big {
            file.extend([0x1A, 0x2B, 0x3C, 0x4D]);
        } else {
            file.extend([0x4D, 0x3C, 0x2B, 0x1A]);
        }
        file.extend(u16b(1, big));
        file.extend(u16b(0, big));
        file.extend(u64b(0, big));
        file.extend(opts);
        file.extend(u32b(total, big));
        file.extend(block(big, 1, &idb_body(big, &[(2, b"eth0"), (9, &[9]), (4, &[1, 2, 3, 4, 5, 6, 7, 8])])));
        file.extend(epb(big, 0, (1, 2), &[10, 11, 12, 13, 14], 5));
        let mut isb = u32b(0, big);
        isb.extend(u32b(1, big));
        isb.extend(u32b(2, big));
        isb.extend(options_bytes(big, &[(1, b"ok"), (2, &[0; 8]), (5, &[0; 8])]));
        file.extend(block(big, 5, &isb));
        file.extend(epb(big, 0, (3, 4), &[20], 1));
        let (res, packets) = open_bytes(file);
        assert_eq!(res, 0);
        assert_eq!(packets.len(), 2);
        assert_eq!(packets[0].packet_data, vec![10, 11, 12, 13, 14]);
        assert_eq!((packets[1].ts_high, packets[1].ts_low), (3, 4));
    }
}

#[test]
fn interface_end_marker_must_precede_the_trailing_length() {
    // the end-of-options marker, four other bytes, then a correct length
    let mut body = idb_body(false, &[(2, b"eth0")]);
    body.extend([9, 9, 9, 9]);
    let mut file = shb(false);
    file.extend(block(false, 1, &body));
    file.extend(epb(false, 0, (0, 0), &[1], 1));
    let (res, packets) = open_bytes(file);
    assert_eq!(res, -1);
    assert!(packets.is_empty());
}

#[test]
fn statistics_end_marker_not_before_the_length_is_passed_over() {
    let mut body = u32b(0, false);
    body.extend(u64b(77, false));
    body.extend(options_bytes(false, &[(4, &1000u64.to_le_bytes())]));
    body.extend([9, 9, 9, 9]);
    let mut file = shb(false);
    file.extend(block(false, 5, &body));
    file.extend(epb(false, 0, (0, 0), &[4], 1));
    let (res, packets) = open_bytes(file);
    assert_eq!(res, 0);
    assert_eq!(packets.len(), 1);
    assert_eq!(packets[0].packet_data, vec![4]);
}

#[test]
fn packet_block_with_a_bad_trailer_stops_the_reading() {
    // a good packet, then one whose trailing length is wrong, then a good one
    let mut file = shb(true);
    file.extend(epb(true, 0, (0, 0), &[1], 1));
    let mut b = epb(true, 0, (0, 0), &[2], 1);
    let n = b.len();
    b[n - 1] ^= 4;
    file.extend(b);
    file.extend(epb(true, 0, (0, 0), &[3], 1));
    let (res, packets) = open_bytes(file);
    assert_eq!(res, -1);
    assert_eq!(packets.len(), 1);
    assert_eq!(packets[0].packet_data, vec![1]);
}

#[test]
fn a_packet_block_reads_the_same_wherever_it_stands() {
    let packet = epb(false, 2, (7, 8), &[5, 6, 7], 90);
    let mut alone = shb(false);
    alone.extend(packet.clone());
    let mut after_others = shb(false);
    after_others.extend(block(false, 1, &idb_body(false, &[(2, b"eth1"), (9, &[6])])));
    after_others.extend(epb(false, 1, (1, 1), &[0xAA; 9], 9));
    after_others.extend(packet);
    let (r1, p1) = open_bytes(alone);
    let (r2, p2) = open_bytes(after_others);
    assert_eq!((r1, r2), (0, 0));
    let (a, b) = (&p1[0], &p2[1]);
    assert_eq!(
        (a.intf_id, a.ts_high, a.ts_low, a.captured_len, a.original_len),
        (b.intf_id, b.ts_high, b.ts_low, b.captured_len, b.original_len)
    );
    assert_eq!(a.packet_data, b.packet_data);
    assert_eq!(a.packet_data, vec![5, 6, 7]);
}
