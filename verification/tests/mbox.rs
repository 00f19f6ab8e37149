use bare_rt::mbox::{Mailbox, Message, Property, BUF_SIZE, END_TAG, REQUEST_CODE, SUCCESS_CODE};

#[test]
fn new_message_is_an_empty_request() {
    let msg = Message::new();
    assert_eq!(msg.code(), REQUEST_CODE);
    assert_eq!(BUF_SIZE, 0x100);
    assert_eq!(END_TAG, 0);
    assert_eq!(SUCCESS_CODE, 0x80000000);
    let _ = Mailbox::new();
}

#[test]
fn property_has_room_for_request_and_response() {
    let prop = Property::new(0x48003, &vec![800, 480], 2);
    assert_eq!(prop.tag(), 0x48003);
    assert_eq!(prop.words(), &vec![0x48003, 8, 0, 800, 480]);
    let prop = Property::new(0x40001, &vec![16], 2);
    assert_eq!(prop.words(), &vec![0x40001, 8, 0, 16, 0]);
    let prop = Property::new(0x10005, &vec![], 0);
    assert_eq!(prop.words(), &vec![0x10005, 0, 0]);
    assert_eq!(prop.nop(5u8), 5);
}

#[test]
fn add_property_appends_before_the_end_tag() {
    let mut msg = Message::new();
    let first = Property::new(0x48003, &vec![800, 480], 2);
    let second = Property::new(0x48005, &vec![32], 1);
    assert!(msg.accepts(&first));
    msg.add_property(&first);
    assert!(!msg.accepts(&first));
    assert!(msg.accepts(&second));
    msg.add_property(&second);
    assert!(!msg.accepts(&second));
    assert_eq!(msg.code(), REQUEST_CODE);
    // a third property with the tag of the first is a duplicate
    let third = Property::new(0x48003, &vec![], 0);
    assert!(!msg.accepts(&third));
}

#[test]
fn message_refuses_what_it_has_no_room_for() {
    let mut msg = Message::new();
    // 2 words of header, 3 + 58 of property, 1 of end tag: 64
    let large = Property::new(1, &vec![0; 58], 0);
    assert!(msg.accepts(&large));
    let too_large = Property::new(1, &vec![0; 59], 0);
    assert!(!msg.accepts(&too_large));
    msg.add_property(&large);
    let small = Property::new(2, &vec![], 0);
    assert!(!msg.accepts(&small));
}
