use dns_name::decoder::{DNSNameReader, MsgCursor};
use dns_name::wire::NameError;

#[test]
fn cursor_primitives() {
    let msg: Vec<u8> = vec![10, 20, 30];
    let mut c = MsgCursor::new(&msg);
    assert_eq!(c.tell(), 0);
    assert_eq!(c.read_u8(), Ok(10));
    assert_eq!(c.tell(), 1);
    assert_eq!(c.read_exact(2), Ok(vec![20, 30]));
    assert_eq!(c.tell(), 3);
    assert_eq!(c.read_u8(), Err(NameError::Truncated));
    assert_eq!(c.read_exact(1), Err(NameError::Truncated));
    c.seek_to(1);
    assert_eq!(c.tell(), 1);
    assert_eq!(c.read_u8(), Ok(20));
}

#[test]
fn decode_without_pointer_leaves_cursor_after_zero() {
    let msg: Vec<u8> = vec![1, b'a', 3, b'c', b'o', b'm', 0, 7, 7];
    let mut c = MsgCursor::new(&msg);
    let n = c.read_dns_name().unwrap();
    assert_eq!(n.labels().clone(), vec![b"a".to_vec(), b"com".to_vec()]);
    assert_eq!(c.tell(), 7);
}

#[test]
fn pointer_resumes_after_first_occurrence() {
    // offset 0 holds "com", the name at offset 20 is a pointer to offset 0
    let mut msg: Vec<u8> = vec![3, b'c', b'o', b'm', 0];
    msg.resize(20, 0);
    msg.push(0xC0);
    msg.push(0x00);
    let mut c = MsgCursor::at(&msg, 20);
    let n = c.read_dns_name().unwrap();
    assert_eq!(n.labels().clone(), vec![b"com".to_vec()]);
    // the cursor stands just past the pointer, not where the jump led
    assert_eq!(c.tell(), 22);
}

#[test]
fn labels_before_pointer_are_kept_in_order() {
    // "example com" at offset 0; "www" + pointer at offset 13
    let mut msg: Vec<u8> = vec![
        7, b'e', b'x', b'a', b'm', b'p', b'l', b'e', 3, b'c', b'o', b'm', 0,
    ];
    assert_eq!(msg.len(), 13);
    msg.extend_from_slice(&[3, b'w', b'w', b'w', 0xC0, 0x00]);
    let mut c = MsgCursor::at(&msg, 13);
    let n = c.read_dns_name().unwrap();
    assert_eq!(
        n.labels().clone(),
        vec![b"www".to_vec(), b"example".to_vec(), b"com".to_vec()]
    );
    assert_eq!(c.tell(), 19);
}

#[test]
fn pointer_chain_collects_all_labels() {
    // offset 0: "bar", end; offset 5: "foo", pointer to 0; offset 30: pointer to 5
    let mut msg: Vec<u8> = vec![3, b'b', b'a', b'r', 0];
    msg.extend_from_slice(&[3, b'f', b'o', b'o', 0xC0, 0x00]);
    msg.resize(30, 0);
    msg.extend_from_slice(&[0xC0, 5]);
    let mut c = MsgCursor::at(&msg, 30);
    let n = c.read_dns_name().unwrap();
    assert_eq!(n.labels().clone(), vec![b"foo".to_vec(), b"bar".to_vec()]);
    // the resume position is set by the first pointer only
    assert_eq!(c.tell(), 32);
}

#[test]
fn pointer_offset_uses_both_octets() {
    // the six low bits of the first octet are the high bits of the offset:
    // 0xC1 0x02 points at offset 0x102
    let mut msg: Vec<u8> = vec![0xC1, 0x02];
    msg.resize(0x102, 0);
    msg.extend_from_slice(&[1, b'x', 0]);
    let mut c = MsgCursor::new(&msg);
    let n = c.read_dns_name().unwrap();
    assert_eq!(n.labels().clone(), vec![b"x".to_vec()]);
    assert_eq!(c.tell(), 2);
}

#[test]
fn cyclic_pointer_chain_terminates_with_error() {
    // a pointer at offset 0 pointing to itself
    let msg: Vec<u8> = vec![0xC0, 0x00];
    let mut c = MsgCursor::new(&msg);
    assert_eq!(c.read_dns_name(), Err(NameError::CompressionLoop));
}

#[test]
fn two_pointer_cycle_terminates_with_error() {
    // offsets 0 and 2 point at each other
    let msg: Vec<u8> = vec![0xC0, 0x02, 0xC0, 0x00];
    let mut c = MsgCursor::new(&msg);
    assert_eq!(c.read_dns_name(), Err(NameError::CompressionLoop));
}

#[test]
fn truncated_pointer_fails() {
    // the message ends before the pointer's second octet
    let msg: Vec<u8> = vec![0xC0];
    let mut c = MsgCursor::new(&msg);
    assert_eq!(c.read_dns_name(), Err(NameError::Truncated));
}

#[test]
fn pointer_past_message_end_fails() {
    let msg: Vec<u8> = vec![0xC0, 0x50];
    let mut c = MsgCursor::new(&msg);
    assert_eq!(c.read_dns_name(), Err(NameError::Truncated));
}

#[test]
fn truncated_label_body_fails_in_message() {
    let msg: Vec<u8> = vec![10, 1, 2, 3];
    let mut c = MsgCursor::new(&msg);
    assert_eq!(c.read_dns_name(), Err(NameError::Truncated));
}

#[test]
fn malformed_label_fails_in_message() {
    let msg: Vec<u8> = vec![2, 0xFF, 0xFE, 0];
    let mut c = MsgCursor::new(&msg);
    assert_eq!(c.read_dns_name(), Err(NameError::MalformedLabel));
}

#[test]
fn decoded_name_serializes_uncompressed() {
    // decoding a compressed occurrence and re-encoding flattens the pointer
    let mut msg: Vec<u8> = vec![3, b'c', b'o', b'm', 0];
    msg.extend_from_slice(&[3, b'f', b't', b'p', 0xC0, 0x00]);
    let mut c = MsgCursor::at(&msg, 5);
    let n = c.read_dns_name().unwrap();
    assert_eq!(n.to_bytes(), vec![3, b'f', b't', b'p', 3, b'c', b'o', b'm', 0]);
}
