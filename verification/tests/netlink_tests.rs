use dns_nftsetter::netlink::{
    recv_step, send_outcome, RecvAction, SendOutcome, EAGAIN, EINTR,
};
use dns_nftsetter::netlink::{
    get_nlmsg_type, is_nlmsg_done, nla_align, parse_nlmsg_error, MsgBuffer, NLA_F_NESTED, NLMSG_DONE,
    NLMSG_ERROR,
};

#[test]
fn nla_align_rounds_up_to_four() {
    assert_eq!(nla_align(0), 0);
    assert_eq!(nla_align(1), 4);
    assert_eq!(nla_align(4), 4);
    assert_eq!(nla_align(5), 8);
    assert_eq!(nla_align(11), 12);
}

#[test]
fn integers_are_laid_out_by_byte_order() {
    let mut b = MsgBuffer::new(16);
    b.put_u8(0xaa);
    b.put_u16(0x1234);
    b.put_u32(0x0102_0304);
    b.put_u32_be(0x0a0b_0c0d);
    b.put_u64_be(0x1122_3344_5566_7788);
    let mut expected = vec![0xaa];
    expected.extend_from_slice(&0x1234u16.to_ne_bytes());
    expected.extend_from_slice(&0x0102_0304u32.to_ne_bytes());
    expected.extend_from_slice(&[0x0a, 0x0b, 0x0c, 0x0d]);
    expected.extend_from_slice(&[0x11, 0x22, 0x33, 0x44, 0x55, 0x66, 0x77, 0x88]);
    assert_eq!(b.as_slice(), expected.as_slice());
    assert_eq!(b.len(), expected.len());
}

#[test]
fn align_pads_with_zeros() {
    let mut b = MsgBuffer::new(8);
    b.put_bytes(&[1, 2, 3, 4, 5]);
    b.align();
    assert_eq!(b.as_slice(), &[1, 2, 3, 4, 5, 0, 0, 0]);
    b.align();
    assert_eq!(b.len(), 8);
}

#[test]
fn header_and_attributes_layout() {
    let mut b = MsgBuffer::new(64);
    b.put_nlmsghdr(0x0a0c, 0x0405, 7);
    b.put_nfgenmsg(2, 0, 10);
    b.put_attr_str(1, "filter");
    b.put_attr_u32_nft(5, 0x0102_0304);
    b.finalize_nlmsg();

    let mut e = Vec::new();
    e.extend_from_slice(&40u32.to_ne_bytes());
    e.extend_from_slice(&0x0a0cu16.to_ne_bytes());
    e.extend_from_slice(&0x0405u16.to_ne_bytes());
    e.extend_from_slice(&7u32.to_ne_bytes());
    e.extend_from_slice(&0u32.to_ne_bytes());
    e.extend_from_slice(&[2, 0, 0, 10]);
    e.extend_from_slice(&11u16.to_ne_bytes());
    e.extend_from_slice(&1u16.to_ne_bytes());
    e.extend_from_slice(b"filter\0\0");
    e.extend_from_slice(&8u16.to_ne_bytes());
    e.extend_from_slice(&5u16.to_ne_bytes());
    e.extend_from_slice(&[1, 2, 3, 4]);
    assert_eq!(b.as_slice(), e.as_slice());
}

#[test]
fn nested_attribute_length_covers_its_content() {
    let mut b = MsgBuffer::new(32);
    b.put_u32(0xdead_beef);
    let off = b.start_nested(3);
    assert_eq!(off, 4);
    b.put_attr_bytes(1, &[9, 8, 7]);
    b.put_attr_u64_nft(4, 1000);
    b.end_nested(off);

    let mut e = Vec::new();
    e.extend_from_slice(&0xdead_beefu32.to_ne_bytes());
    e.extend_from_slice(&24u16.to_ne_bytes());
    e.extend_from_slice(&(3 | NLA_F_NESTED).to_ne_bytes());
    e.extend_from_slice(&7u16.to_ne_bytes());
    e.extend_from_slice(&1u16.to_ne_bytes());
    e.extend_from_slice(&[9, 8, 7, 0]);
    e.extend_from_slice(&12u16.to_ne_bytes());
    e.extend_from_slice(&4u16.to_ne_bytes());
    e.extend_from_slice(&1000u64.to_be_bytes());
    assert_eq!(b.as_slice(), e.as_slice());
}

#[test]
fn finalize_at_offset_sets_that_message_length() {
    let mut b = MsgBuffer::new(64);
    b.put_bytes(&[0u8; 8]);
    b.put_nlmsghdr(0x11, 1, 2);
    b.put_nfgenmsg(0, 0, 10);
    b.finalize_nlmsg_at(8);
    assert_eq!(&b.as_slice()[..8], &[0u8; 8]);
    assert_eq!(&b.as_slice()[8..12], &20u32.to_ne_bytes());
}

fn reply(msg_type: u16, extra: &[u8]) -> Vec<u8> {
    let mut v = Vec::new();
    v.extend_from_slice(&((16 + extra.len()) as u32).to_ne_bytes());
    v.extend_from_slice(&msg_type.to_ne_bytes());
    v.extend_from_slice(&0u16.to_ne_bytes());
    v.extend_from_slice(&1u32.to_ne_bytes());
    v.extend_from_slice(&0u32.to_ne_bytes());
    v.extend_from_slice(extra);
    v
}

#[test]
fn reply_headers_are_read() {
    let done = reply(NLMSG_DONE, &[]);
    assert_eq!(get_nlmsg_type(&done), Some(NLMSG_DONE));
    assert!(is_nlmsg_done(&done));
    assert_eq!(parse_nlmsg_error(&done), None);

    let err = reply(NLMSG_ERROR, &(-17i32).to_ne_bytes());
    assert_eq!(get_nlmsg_type(&err), Some(NLMSG_ERROR));
    assert!(!is_nlmsg_done(&err));
    assert_eq!(parse_nlmsg_error(&err), Some(-17));

    let ack = reply(NLMSG_ERROR, &0i32.to_ne_bytes());
    assert_eq!(parse_nlmsg_error(&ack), Some(0));

    // An error header without its code is not an error message.
    let short = reply(NLMSG_ERROR, &[]);
    assert_eq!(parse_nlmsg_error(&short), None);

    assert_eq!(get_nlmsg_type(&[0u8; 15]), None);
    assert!(!is_nlmsg_done(&[0u8; 15]));
}

#[test]
fn send_results_are_read() {
    assert_eq!(send_outcome(40, 40), SendOutcome::Sent);
    assert_eq!(send_outcome(12, 40), SendOutcome::Incomplete);
    assert_eq!(send_outcome(-1, 40), SendOutcome::Failed);
    assert_eq!(send_outcome(0, 0), SendOutcome::Sent);
}

#[test]
fn transient_receive_errors_are_retried_three_times() {
    let mut retries = 3;
    assert_eq!(recv_step(-1, EAGAIN, &mut retries), RecvAction::Retry);
    assert_eq!(recv_step(-1, EINTR, &mut retries), RecvAction::Retry);
    assert_eq!(recv_step(-1, EAGAIN, &mut retries), RecvAction::Retry);
    assert_eq!(retries, 0);
    assert_eq!(recv_step(-1, EAGAIN, &mut retries), RecvAction::Failed);
    let mut retries = 3;
    assert_eq!(recv_step(-1, 1, &mut retries), RecvAction::Failed);
    assert_eq!(retries, 3);
    assert_eq!(recv_step(36, 0, &mut retries), RecvAction::Received(36));
    assert_eq!(recv_step(0, EAGAIN, &mut retries), RecvAction::Received(0));
}
