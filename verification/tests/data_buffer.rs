use appkit::DataBuffer;

#[test]
fn new_buffer_is_empty() {
    let mut b = DataBuffer::new();
    assert!(b.is_empty());
    assert!(b.is_no_data());
    assert_eq!(b.get_size(), 0);
    assert_eq!(b.get_index(), 0);
}

#[test]
fn u8_and_i8_round_trip() {
    let mut b = DataBuffer::new();
    b.set_u8(200);
    b.set_i8(-5);
    assert_eq!(b.data_vec, vec![200u8, 251u8]);
    assert_eq!(b.get_u8(), 200);
    assert_eq!(b.get_i8(), -5);
    assert!(b.is_no_data());
}

#[test]
fn u16_is_big_endian_and_round_trips() {
    let mut b = DataBuffer::new();
    b.set_u16(0x1234);
    assert_eq!(b.data_vec, vec![0x12u8, 0x34u8]);
    assert_eq!(b.get_u16(), 0x1234);
    assert_eq!(b.get_index(), 2);
}

#[test]
fn i16_round_trips_negative() {
    let mut b = DataBuffer::new();
    b.set_i16(-2);
    assert_eq!(b.data_vec, vec![0xffu8, 0xfeu8]);
    assert_eq!(b.get_i16(), -2);
    b.set_i16(i16::MIN);
    assert_eq!(b.get_i16(), i16::MIN);
}

#[test]
fn u32_and_i32_round_trip() {
    let mut b = DataBuffer::new();
    b.set_u32(0xdead_beef);
    b.set_i32(-123_456_789);
    assert_eq!(&b.data_vec[0..4], &[0xde, 0xad, 0xbe, 0xef]);
    assert_eq!(b.get_u32(), 0xdead_beef);
    assert_eq!(b.get_i32(), -123_456_789);
}

#[test]
fn u64_is_written_as_two_words() {
    let mut b = DataBuffer::new();
    b.set_u64(0x0102_0304_0506_0708);
    assert_eq!(b.data_vec, vec![1u8, 2, 3, 4, 5, 6, 7, 8]);
}

#[test]
fn u64_read_repeats_first_byte() {
    let mut b = DataBuffer::new();
    b.set_u64(0x0102_0304_0506_0708);
    assert_eq!(b.get_u64(), 0x0101_0101_0102_0304);
    assert_eq!(b.get_index(), 8);
}

#[test]
fn u64_round_trips_when_bytes_repeat() {
    let mut b = DataBuffer::new();
    b.set_u64(0x4242_4242_4242_4242);
    b.set_u64(u64::MAX);
    b.set_u64(0);
    assert_eq!(b.get_u64(), 0x4242_4242_4242_4242);
    assert_eq!(b.get_u64(), u64::MAX);
    assert_eq!(b.get_u64(), 0);
}

#[test]
fn u64_of_one_does_not_round_trip() {
    let mut b = DataBuffer::new();
    b.set_u64(1);
    assert_eq!(b.get_u64(), 0);
}

#[test]
fn reads_past_the_end_give_zero_and_stay() {
    let mut b = DataBuffer::new();
    b.set_u8(7);
    assert_eq!(b.get_u16(), 0);
    assert_eq!(b.get_u32(), 0);
    assert_eq!(b.get_u64(), 0);
    assert_eq!(b.get_i16(), 0);
    assert_eq!(b.get_i32(), 0);
    assert_eq!(b.get_index(), 0);
    assert_eq!(b.get_u8(), 7);
    assert_eq!(b.get_u8(), 0);
    assert_eq!(b.get_i8(), 0);
    assert_eq!(b.get_char(), '\0');
    assert_eq!(b.get_index(), 1);
}

#[test]
fn chars_keep_their_low_byte() {
    let mut b = DataBuffer::new();
    b.set_char('A');
    b.set_char('\u{e9}');
    b.set_char('\u{20ac}');
    assert_eq!(b.data_vec, vec![0x41u8, 0xe9, 0xac]);
    assert_eq!(b.get_char(), 'A');
    assert_eq!(b.get_char(), '\u{e9}');
    assert_eq!(b.get_char(), '\u{ac}');
}

#[test]
fn strings_round_trip() {
    let mut b = DataBuffer::new();
    b.set_string(String::from("hello"));
    b.set_str("caf\u{e9}");
    b.set_string(String::new());
    assert_eq!(b.get_size(), 6 + 5 + 1);
    assert_eq!(b.get_string(), "hello");
    assert_eq!(b.get_string(), "caf\u{e9}");
    assert_eq!(b.get_string(), "");
    assert!(b.is_no_data());
}

#[test]
fn string_stops_at_zero_byte_or_end() {
    let mut b = DataBuffer::new();
    b.set_u8(b'a');
    b.set_u8(0);
    b.set_u8(b'b');
    assert_eq!(b.get_string(), "a");
    assert_eq!(b.get_index(), 2);
    assert_eq!(b.get_string(), "b");
    assert_eq!(b.get_index(), 3);
    assert_eq!(b.get_string(), "");
    assert_eq!(b.get_index(), 3);
}

#[test]
fn string_with_zero_char_is_cut() {
    let mut b = DataBuffer::new();
    b.set_string(String::from("a\u{0}b"));
    assert_eq!(b.get_string(), "a");
}

#[test]
fn set_buffer_appends_all_bytes() {
    let mut a = DataBuffer::new();
    a.set_u8(1);
    let mut b = DataBuffer::new();
    b.set_u8(2);
    b.set_u8(3);
    let _ = b.get_u8();
    a.set_buffer(&mut b);
    assert_eq!(a.data_vec, vec![1u8, 2, 3]);
    assert_eq!(b.get_index(), 1);
    assert_eq!(b.data_vec, vec![2u8, 3]);
}

#[test]
fn clear_and_reset() {
    let mut b = DataBuffer::new();
    b.set_u32(5);
    let _ = b.get_u16();
    b.reset_index();
    assert_eq!(b.get_index(), 0);
    b.clear_buffer();
    assert!(b.is_empty());
    assert_eq!(b.get_index(), 0);
}

#[test]
fn buffer_vec_in_and_out() {
    let mut b = DataBuffer::new();
    b.index = 1;
    b.set_buffer_vec(vec![9u8, 8, 7]);
    assert_eq!(b.get_index(), 1);
    assert_eq!(b.get_u8(), 8);
    assert_eq!(b.get_buffer_vec(), vec![9u8, 8, 7]);
}

#[test]
fn add_sums() {
    assert_eq!(appkit::add(2, 3), 5);
    assert_eq!(appkit::add(-7, 3), -4);
}
