use appkit::communication_unit::{frame_packet, packet_body_size, packet_reply};
use appkit::property::sock_val;
use appkit::DataBuffer;

#[test]
fn packet_frames_the_buffer() {
    let mut b = DataBuffer::new();
    b.set_u8(1);
    b.set_u8(2);
    b.set_u8(3);
    let _ = b.get_u8();
    let p = frame_packet(&mut b);
    assert_eq!(p, vec![0xc3u8, 0x50, 0x00, 0x03, 1, 2, 3]);
    assert_eq!(b.get_index(), 1);
}

#[test]
fn packet_header_announces_body() {
    assert_eq!(packet_body_size(&[0xc3, 0x50, 0x01, 0x02]), Some(258));
    assert_eq!(packet_body_size(&[0xc3, 0x51, 0x00, 0x02]), None);
    assert_eq!(packet_body_size(&[0, 0, 0, 0]), None);
}

#[test]
fn packet_reply_ids() {
    let (id, mut buf) = packet_reply(true, Some(vec![5u8]));
    assert_eq!(id, sock_val::CLIENT);
    assert_eq!(buf.get_u8(), 5);
    let (id, buf) = packet_reply(false, Some(vec![]));
    assert_eq!(id, sock_val::SERVER);
    assert_eq!(buf.data_vec, Vec::<u8>::new());
    let (id, _) = packet_reply(true, None);
    assert_eq!(id, sock_val::SERVER);
    let (id, buf) = packet_reply(false, None);
    assert_eq!(id, sock_val::CLIENT);
    assert_eq!(buf.data_vec, Vec::<u8>::new());
}
