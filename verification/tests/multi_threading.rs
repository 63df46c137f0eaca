use appkit::multi_threading::{delivery, is_routed, runs_on, Delivery};
use appkit::DataBuffer;

#[test]
fn delivery_of_messages() {
    assert!(matches!(delivery(None), Delivery::Nothing));
    assert!(matches!(delivery(Some((0, DataBuffer::new()))), Delivery::Stop));
    let mut b = DataBuffer::new();
    b.set_u8(9);
    match delivery(Some((2, b))) {
        Delivery::Event(mut e) => assert_eq!(e.get_u8(), 9),
        _ => panic!("an event was expected"),
    }
}

#[test]
fn running_on_and_routing() {
    assert!(runs_on(true, true));
    assert!(!runs_on(true, false));
    assert!(!runs_on(false, true));
    assert!(is_routed(1));
    assert!(!is_routed(0));
}
