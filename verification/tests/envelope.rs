use rusty_maelstrom::{decimal_string, Body, Message};

fn request(msg_id: Option<u64>) -> Message<u8> {
    Message {
        src: String::from("c1"),
        dest: String::from("n1"),
        body: Body { msg_id, in_reply_to: None, payload: 7 },
    }
}

#[test]
fn reply_swaps_source_and_destination() {
    let reply = request(Some(4)).to_reply();
    assert_eq!(reply.src, "n1");
    assert_eq!(reply.dest, "c1");
}

#[test]
fn reply_refers_to_the_request_and_takes_the_next_id() {
    let reply = request(Some(4)).to_reply();
    assert_eq!(reply.body.in_reply_to, Some(4));
    assert_eq!(reply.body.msg_id, Some(5));
}

#[test]
fn reply_to_a_request_without_id_has_no_ids() {
    let reply = request(None).to_reply();
    assert_eq!(reply.body.in_reply_to, None);
    assert_eq!(reply.body.msg_id, None);
}

#[test]
fn reply_keeps_the_payload() {
    let reply = request(Some(0)).to_reply();
    assert_eq!(reply.body.payload, 7);
    assert_eq!(reply.body.msg_id, Some(1));
}

#[test]
fn reply_to_a_reply_goes_back_to_the_sender() {
    let there = request(Some(10)).to_reply();
    let back = there.to_reply();
    assert_eq!(back.src, "c1");
    assert_eq!(back.dest, "n1");
    assert_eq!(back.body.in_reply_to, Some(11));
    assert_eq!(back.body.msg_id, Some(12));
}

#[test]
fn largest_message_id_cannot_be_answered() {
    assert!(!request(Some(u64::MAX)).can_reply());
    assert!(request(Some(u64::MAX - 1)).can_reply());
    assert!(request(None).can_reply());
    let reply = request(Some(u64::MAX - 1)).to_reply();
    assert_eq!(reply.body.msg_id, Some(u64::MAX));
}

#[test]
fn decimal_of_small_and_large_numbers() {
    assert_eq!(decimal_string(0), "0");
    assert_eq!(decimal_string(7), "7");
    assert_eq!(decimal_string(10), "10");
    assert_eq!(decimal_string(109), "109");
    assert_eq!(decimal_string(12345), "12345");
    assert_eq!(decimal_string(u64::MAX), "18446744073709551615");
}

#[test]
fn decimal_agrees_with_the_standard_formatting() {
    let mut n: u64 = 1;
    let mut step: u64 = 1;
    while n < 1_000_000_000_000 {
        assert_eq!(decimal_string(n), format!("{}", n));
        step = step * 3 + 1;
        n += step;
    }
}
