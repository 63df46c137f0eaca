use appkit::file_cursor::{
    is_end_of_file, latin1_string, read_bytes, read_line, read_till_delimiters, start_cursor,
    ReadCursor,
};
use appkit::text::{parse_i32, trim_bytes};

#[test]
fn read_till_stops_after_the_delimiter() {
    let c = b"ab,cd";
    let mut cur = start_cursor();
    assert_eq!(read_till_delimiters(c, &mut cur, b","), b"ab".to_vec());
    assert_eq!(cur, ReadCursor { pos: 3, last_char: ',' });
    assert_eq!(read_till_delimiters(c, &mut cur, b","), b"cd".to_vec());
    assert_eq!(cur, ReadCursor { pos: 5, last_char: '\0' });
    assert_eq!(read_till_delimiters(c, &mut cur, b","), Vec::<u8>::new());
    assert_eq!(cur, ReadCursor { pos: 5, last_char: '\0' });
}

#[test]
fn read_till_stops_at_zero_byte() {
    let c = [b'x', 0u8, b'y'];
    let mut cur = start_cursor();
    assert_eq!(read_till_delimiters(&c, &mut cur, b";"), b"x".to_vec());
    assert_eq!(cur, ReadCursor { pos: 2, last_char: '\0' });
}

#[test]
fn read_till_past_the_end_stays() {
    let mut cur = ReadCursor { pos: 9, last_char: 'q' };
    assert_eq!(read_till_delimiters(b"abc", &mut cur, b","), Vec::<u8>::new());
    assert_eq!(cur, ReadCursor { pos: 9, last_char: '\0' });
}

#[test]
fn read_line_reads_a_line() {
    let mut cur = start_cursor();
    assert_eq!(read_line(b"one\ntwo", &mut cur), b"one".to_vec());
    assert_eq!(read_line(b"one\ntwo", &mut cur), b"two".to_vec());
}

#[test]
fn read_bytes_pads_with_zero() {
    let mut cur = start_cursor();
    assert_eq!(read_bytes(b"ab", &mut cur, 4), vec![b'a', b'b', 0, 0]);
    assert_eq!(cur, ReadCursor { pos: 2, last_char: '\0' });
    let mut cur = start_cursor();
    assert_eq!(read_bytes(b"abc", &mut cur, 2), b"ab".to_vec());
    assert_eq!(cur, ReadCursor { pos: 2, last_char: 'b' });
}

#[test]
fn end_of_file_peeks() {
    let mut cur = start_cursor();
    assert!(!is_end_of_file(b"a", &mut cur));
    assert_eq!(cur, ReadCursor { pos: 0, last_char: 'a' });
    cur.pos = 1;
    assert!(is_end_of_file(b"a", &mut cur));
    assert_eq!(cur.last_char, '\0');
}

#[test]
fn latin1_bytes_become_chars() {
    assert_eq!(latin1_string(&[0x41, 0xe9]), "A\u{e9}");
}

#[test]
fn trim_and_parse() {
    assert_eq!(trim_bytes(b" \t x y \n"), b"x y".to_vec());
    assert_eq!(trim_bytes(&[0xa0, b'z', 0x85]), b"z".to_vec());
    assert_eq!(trim_bytes(b"   "), Vec::<u8>::new());
    assert_eq!(parse_i32(b"-42"), Some(-42));
    assert_eq!(parse_i32(b"2147483647"), Some(i32::MAX));
    assert_eq!(parse_i32(b""), None);
    assert_eq!(parse_i32(b"+"), None);
    assert_eq!(parse_i32(b"1 2"), None);
    assert_eq!(parse_i32(b"00012"), Some(12));
}
