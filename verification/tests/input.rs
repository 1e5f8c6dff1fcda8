use static_trie::parse_line;

#[test]
fn a_line_of_three_fields() {
    assert_eq!(parse_line(b"kok\t5\t17"), Some((b"kok\0".to_vec(), 5, 17)));
    assert_eq!(parse_line(b"\t0\t0"), Some((vec![0], 0, 0)));
    assert_eq!(
        parse_line(b"two words\t4294967295\t+12"),
        Some((b"two words\0".to_vec(), u32::MAX, 12))
    );
    assert_eq!(parse_line(b"a\t007\t00000000000000000001"), Some((b"a\0".to_vec(), 7, 1)));
}

#[test]
fn fields_beyond_the_third_are_left_out() {
    assert_eq!(parse_line(b"kok\t5\t17\tmore\t1"), Some((b"kok\0".to_vec(), 5, 17)));
    assert_eq!(parse_line(b"kok\t5\t17\t"), Some((b"kok\0".to_vec(), 5, 17)));
}

#[test]
fn a_line_with_too_few_fields() {
    assert_eq!(parse_line(b""), None);
    assert_eq!(parse_line(b"kok"), None);
    assert_eq!(parse_line(b"kok\t5"), None);
}

#[test]
fn a_field_that_is_no_number() {
    assert_eq!(parse_line(b"kok\t\t17"), None);
    assert_eq!(parse_line(b"kok\t5\t"), None);
    assert_eq!(parse_line(b"kok\t+\t17"), None);
    assert_eq!(parse_line(b"kok\t-5\t17"), None);
    assert_eq!(parse_line(b"kok\t5 \t17"), None);
    assert_eq!(parse_line(b"kok\t5\t1x"), None);
    assert_eq!(parse_line(b"kok\t5\t++1"), None);
    assert_eq!(parse_line(b"kok\t4294967296\t1"), None);
    assert_eq!(parse_line(b"kok\t1\t99999999999"), None);
    assert_eq!(parse_line(b"kok\t99999999999x\t1"), None);
}
