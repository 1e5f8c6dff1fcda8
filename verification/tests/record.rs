use static_trie::bits::{BitReader, BitWriter};
use static_trie::record::{
    log2, read_fields, read_header, write_fields, write_header, Header, MAX_CHILDREN, MAX_EDGE,
};
use static_trie::ReadError;

#[test]
fn log2_is_the_width_in_bytes() {
    assert_eq!(log2(1), 1);
    assert_eq!(log2(0xff), 1);
    assert_eq!(log2(0x100), 2);
    assert_eq!(log2(0xffff), 2);
    assert_eq!(log2(0x1_0000), 3);
    assert_eq!(log2(0xff_ffff), 3);
    assert_eq!(log2(0x100_0000), 4);
    assert_eq!(log2(u32::MAX), 4);
}

#[test]
fn limits_of_a_record() {
    assert_eq!(MAX_EDGE, 16);
    assert_eq!(MAX_CHILDREN, 256);
}

fn two_children() -> Header {
    Header {
        are_terminal: vec![1, 0],
        firsts: vec![0x61, 0x62],
        ptr_sizes: vec![0, 1],
        term_lens: vec![1, 15],
    }
}

#[test]
fn header_bytes() {
    // 00000001 | 1 0 | 01100001 01100010 | 00 01 | 0001 1111 | 00
    let mut out = vec![0xaa];
    write_header(&mut out, &two_children());
    assert_eq!(out, vec![0xaa, 0x01, 0x98, 0x58, 0x84, 0x7c]);
}

#[test]
fn header_reads_back() {
    let mut out = Vec::new();
    write_header(&mut out, &two_children());
    out.push(0x99);
    let (header, len) = read_header(&out).unwrap();
    assert_eq!(len, 5);
    assert_eq!(header.are_terminal, vec![1, 0]);
    assert_eq!(header.firsts, vec![0x61, 0x62]);
    assert_eq!(header.ptr_sizes, vec![0, 1]);
    assert_eq!(header.term_lens, vec![1, 15]);
}

#[test]
fn header_that_ends_early_is_refused() {
    let mut out = Vec::new();
    write_header(&mut out, &two_children());
    for cut in 0..out.len() {
        assert_eq!(read_header(&out[..cut]).err(), Some(ReadError::Truncated));
    }
    assert!(read_header(&out).is_ok());
}

#[test]
fn header_of_the_most_children() {
    let header = Header {
        are_terminal: vec![1; 256],
        firsts: (0..256).collect(),
        ptr_sizes: vec![3; 256],
        term_lens: vec![0; 256],
    };
    let mut out = Vec::new();
    write_header(&mut out, &header);
    // 8 + 15 * 256 bits
    assert_eq!(out.len(), 481);
    assert_eq!(out[0], 0xff);
    let (back, len) = read_header(&out).unwrap();
    assert_eq!(len, 481);
    assert_eq!(back.firsts, header.firsts);
    assert_eq!(back.ptr_sizes, header.ptr_sizes);
}

#[test]
fn rows_of_fields() {
    let mut out = Vec::new();
    let mut w = BitWriter::new();
    write_fields(&mut w, &mut out, &vec![1, 2, 3, 0], 2);
    write_fields(&mut w, &mut out, &vec![], 8);
    write_fields(&mut w, &mut out, &vec![0x1ff, 0x001], 9);
    w.close(&mut out);
    // 01 10 11 00 | 111111111 000000001 | pad
    assert_eq!(out, vec![0x6c, 0xff, 0x80, 0x40]);
    let mut r = BitReader::new(&out);
    assert_eq!(read_fields(&mut r, 4, 2), Ok(vec![1, 2, 3, 0]));
    assert_eq!(read_fields(&mut r, 0, 8), Ok(vec![]));
    assert_eq!(read_fields(&mut r, 2, 9), Ok(vec![0x1ff, 0x001]));
    assert_eq!(read_fields(&mut r, 1, 7), Err(ReadError::Truncated));
}
