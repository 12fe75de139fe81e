use dsdenc::filewriter::{convert_to_bytes, pack_bit_vec, Writer, WriterCtx};

fn bits_of_u16(pattern: u16) -> Vec<bool> {
    let mut bits = Vec::new();
    let mut i: usize = 0;
    while i < 16 {
        bits.push((pattern >> (15 - i)) & 1 == 1);
        i += 1;
    }
    bits
}

fn unpack_msb_first(bytes: &[u8]) -> Vec<bool> {
    let mut bits = Vec::new();
    for &b in bytes {
        let mut i: usize = 0;
        while i < 8 {
            bits.push((b >> (7 - i)) & 1 == 1);
            i += 1;
        }
    }
    bits
}

#[test]
fn convert_to_bytes_is_little_endian() {
    let mut buf = vec![0u8; 8];
    convert_to_bytes(2, 0x0403_0201, &mut buf);
    assert_eq!(buf, vec![0, 0, 0x01, 0x02, 0x03, 0x04, 0, 0]);
}

#[test]
fn convert_to_bytes_keeps_low_four_bytes_only() {
    let mut buf = vec![0xEEu8; 6];
    convert_to_bytes(1, 0x1122_3344, &mut buf);
    assert_eq!(buf, vec![0xEE, 0x44, 0x33, 0x22, 0x11, 0xEE]);
}

#[test]
fn header_layout_is_exact() {
    let w: WriterCtx = Writer::new(String::from("out.dsd"), 2, 0x1122_3344, 4096);
    let h = w.write_header();
    assert_eq!(h.len(), 92);
    assert_eq!(&h[0..4], b"DSD ");
    assert_eq!(h[4], 28);
    assert_eq!(&h[5..28], &[0u8; 23][..]);
    assert_eq!(&h[28..32], b"fmt ");
    assert_eq!(h[32], 52);
    assert_eq!(h[40], 1);
    assert_eq!(h[48], 2);
    assert_eq!(h[52], 2);
    assert_eq!(h[56], 0x00);
    assert_eq!(h[57], 0x11);
    assert_eq!(h[58], 0x2b);
    assert_eq!(h[59], 0x00);
    assert_eq!(h[60], 0x08);
    assert_eq!(&h[64..68], &[0x44, 0x33, 0x22, 0x11]);
    assert_eq!(&h[68..72], &[0, 0, 0, 0]);
    assert_eq!(&h[72..76], &[0x00, 0x10, 0x00, 0x00]);
    assert_eq!(&h[80..84], b"data");
    assert_eq!(&h[84..88], &[0x44, 0x33, 0x22, 0x11]);
    assert_eq!(&h[88..92], &[0, 0, 0, 0]);
}

#[test]
fn header_truncates_wide_channel_count() {
    let w: WriterCtx = Writer::new(String::from("o"), 258, 0, 0);
    let h = w.write_header();
    assert_eq!(h[48], 2);
    assert_eq!(h[52], 2);
}

#[test]
fn write_bit_packs_msb_first() {
    let mut w: WriterCtx = Writer::new(String::new(), 1, 0, 0);
    for bit in [true, false, true, true, false, false, false, true] {
        assert!(w.write_bit(bit).is_none());
    }
    let rest = w.finish();
    assert_eq!(rest, vec![0b1011_0001]);
}

#[test]
fn final_partial_byte_is_zero_padded() {
    let mut w: WriterCtx = Writer::new(String::new(), 1, 0, 0);
    for bit in [true, false, true] {
        assert!(w.write_bit(bit).is_none());
    }
    let rest = w.finish();
    assert_eq!(rest, vec![0b1010_0000]);
}

#[test]
fn finish_on_empty_stream_returns_nothing() {
    let mut w: WriterCtx = Writer::new(String::new(), 1, 0, 0);
    assert_eq!(w.finish(), Vec::<u8>::new());
}

#[test]
fn full_block_is_flushed_at_4096_bytes() {
    let mut w: WriterCtx = Writer::new(String::new(), 1, 0, 0);
    let mut flushed: Vec<Vec<u8>> = Vec::new();
    for i in 0..4096 * 8 {
        if let Some(block) = w.write_bit(true) {
            flushed.push(block);
            assert_eq!(i, 4096 * 8 - 1);
        }
    }
    assert_eq!(flushed.len(), 1);
    assert_eq!(flushed[0].len(), 4096);
    assert!(flushed[0].iter().all(|&b| b == 0xFF));
    assert_eq!(w.finish(), Vec::<u8>::new());
}

#[test]
fn bit_packing_round_trips_a_16_bit_pattern_per_channel() {
    let mut bits = Vec::new();
    for _channel in 0..2 {
        bits.extend(bits_of_u16(0xB5C3));
    }
    let packed = pack_bit_vec(&bits);
    assert_eq!(packed, vec![0xB5, 0xC3, 0xB5, 0xC3]);
    assert_eq!(unpack_msb_first(&packed), bits);
}

#[test]
fn bit_packing_round_trips_with_padded_tail() {
    let mut bits = bits_of_u16(0xB5C3);
    bits.extend([true, false, true]);
    let packed = pack_bit_vec(&bits);
    assert_eq!(packed, vec![0xB5, 0xC3, 0b1010_0000]);
    let unpacked = unpack_msb_first(&packed);
    assert_eq!(&unpacked[..19], &bits[..]);
    assert!(unpacked[19..].iter().all(|&b| !b));
}

#[test]
fn writer_matches_pack_bit_vec() {
    let bits = vec![true, true, false, true, false, false, true, true, true, false];
    let mut w: WriterCtx = Writer::new(String::new(), 1, 0, 0);
    let mut out = Vec::new();
    for &b in &bits {
        if let Some(mut block) = w.write_bit(b) {
            out.append(&mut block);
        }
    }
    out.append(&mut w.finish());
    assert_eq!(out, pack_bit_vec(&bits));
}
