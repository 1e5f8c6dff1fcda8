use static_trie::{BitReader, BitWriter, ReadError};

#[test]
fn bit_writer_packs_fields_msb_first() {
    let mut out = Vec::new();
    let mut w = BitWriter::new();
    for &x in &[14u32, 2, 5, 8, 0, 13, 2, 7, 7, 8] {
        w.write(&mut out, 4, x);
    }
    w.close(&mut out);
    assert_eq!(out, vec![0xe2, 0x58, 0x0d, 0x27, 0x78]);
}

#[test]
fn bit_writer_reports_moved_bytes() {
    let mut out = Vec::new();
    let mut w = BitWriter::new();
    // nothing is held yet, so nothing moves
    assert_eq!(w.write(&mut out, 4, 14), 0);
    // four bits are held: less than a byte
    assert_eq!(w.write(&mut out, 4, 2), 0);
    // eight bits are held: one byte moves before the field is taken
    assert_eq!(w.write(&mut out, 25, 0x1ff_ffff), 1);
    assert_eq!(out, vec![0xe2]);
    // 25 bits are held: three bytes move, one bit stays
    assert_eq!(w.write(&mut out, 1, 0), 3);
    assert_eq!(out, vec![0xe2, 0xff, 0xff, 0xff]);
    // the two bits left make one more byte
    assert_eq!(w.close(&mut out), 1);
    assert_eq!(out, vec![0xe2, 0xff, 0xff, 0xff, 0x80]);
}

#[test]
fn bit_writer_flush_keeps_less_than_a_byte() {
    let mut out = Vec::new();
    let mut w = BitWriter::new();
    w.write(&mut out, 20, 0xabcde);
    assert!(out.is_empty());
    assert_eq!(w.flush(&mut out), 2);
    assert_eq!(out, vec![0xab, 0xcd]);
    assert_eq!(w.flush(&mut out), 0);
    assert_eq!(w.close(&mut out), 1);
    assert_eq!(out, vec![0xab, 0xcd, 0xe0]);
}

#[test]
fn bit_writer_close_pads_with_zero_bits() {
    let mut out = vec![0x11];
    let mut w = BitWriter::new();
    w.write(&mut out, 3, 0b101);
    assert_eq!(w.close(&mut out), 1);
    assert_eq!(out, vec![0x11, 0b1010_0000]);
    // a closed writer holds nothing: closing again adds nothing
    assert_eq!(w.close(&mut out), 0);
    assert_eq!(out, vec![0x11, 0b1010_0000]);
}

#[test]
fn bit_writer_field_of_no_bits() {
    let mut out = Vec::new();
    let mut w = BitWriter::new();
    assert_eq!(w.write(&mut out, 0, 0), 0);
    w.write(&mut out, 8, 0x5a);
    assert_eq!(w.write(&mut out, 0, 0), 1);
    assert_eq!(w.close(&mut out), 0);
    assert_eq!(out, vec![0x5a]);
}

#[test]
fn bit_reader_reads_fields_back() {
    let bytes = [0xe2u8, 0x58, 0x0d, 0x27, 0x78];
    let mut r = BitReader::new(&bytes);
    let mut got = Vec::new();
    for _ in 0..10 {
        got.push(r.read(4).unwrap());
    }
    assert_eq!(got, vec![14, 2, 5, 8, 0, 13, 2, 7, 7, 8]);
    assert_eq!(r.read(1), Err(ReadError::Truncated));
}

#[test]
fn bit_reader_counts_the_bytes_it_reaches_into() {
    let bytes = [0xe2u8, 0x58, 0x0d];
    let mut r = BitReader::new(&bytes);
    assert_eq!(r.advanced_by(), 0);
    assert_eq!(r.read(0), Ok(0));
    assert_eq!(r.advanced_by(), 0);
    assert_eq!(r.read(4), Ok(0xe));
    assert_eq!(r.advanced_by(), 1);
    assert_eq!(r.read(4), Ok(0x2));
    assert_eq!(r.advanced_by(), 1);
    assert_eq!(r.read(9), Ok(0x58 << 1));
    assert_eq!(r.advanced_by(), 3);
    assert_eq!(r.read(7), Ok(0x0d));
    assert_eq!(r.advanced_by(), 3);
}

#[test]
fn bit_reader_reads_twenty_five_bits() {
    let bytes = [0xffu8, 0x00, 0xff, 0x80, 0x01];
    let mut r = BitReader::new(&bytes);
    assert_eq!(r.read(7), Ok(0x7f));
    assert_eq!(r.read(25), Ok(0x100_ff80));
    assert_eq!(r.advanced_by(), 4);
    assert_eq!(r.read(8), Ok(0x01));
}

#[test]
fn bit_reader_truncated_read_changes_nothing() {
    let bytes = [0xabu8, 0xcd];
    let mut r = BitReader::new(&bytes);
    assert_eq!(r.read(4), Ok(0xa));
    assert_eq!(r.read(13), Err(ReadError::Truncated));
    assert_eq!(r.advanced_by(), 1);
    assert_eq!(r.read(12), Ok(0xbcd));
    assert_eq!(r.read(1), Err(ReadError::Truncated));
    let none: [u8; 0] = [];
    let mut r = BitReader::new(&none);
    assert_eq!(r.read(1), Err(ReadError::Truncated));
    assert_eq!(r.read(0), Ok(0));
}

#[test]
fn bit_reader_fill_takes_one_byte() {
    let bytes = [0xabu8];
    let mut r = BitReader::new(&bytes);
    r.fill();
    assert_eq!(r.advanced_by(), 1);
    // nothing is left to take
    r.fill();
    assert_eq!(r.advanced_by(), 1);
    assert_eq!(r.read(8), Ok(0xab));
}

#[test]
fn bit_writer_and_reader_agree_on_mixed_widths() {
    let fields: Vec<(usize, u32)> = vec![
        (1, 1),
        (8, 0x78),
        (2, 3),
        (4, 9),
        (25, 0x155_5555),
        (0, 0),
        (13, 0x1abc),
        (7, 0),
        (3, 5),
    ];
    let mut out = Vec::new();
    let mut w = BitWriter::new();
    let mut moved = 0;
    for &(size, x) in &fields {
        moved += w.write(&mut out, size, x);
    }
    moved += w.close(&mut out);
    assert_eq!(moved, out.len());
    let bits: usize = fields.iter().map(|f| f.0).sum();
    assert_eq!(out.len(), (bits + 7) / 8);
    let mut r = BitReader::new(&out);
    for &(size, x) in &fields {
        assert_eq!(r.read(size), Ok(x));
    }
    assert_eq!(r.advanced_by(), out.len());
}
