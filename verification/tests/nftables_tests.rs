use dns_nftsetter::netlink::{NLMSG_DONE, NLMSG_ERROR};
use dns_nftsetter::nftables::{
    build_add_elements_request, classify_reply, family_code, nft_msg_type, parse_nf_family, request_fits, NftElement,
    NftError, ReplyAction,
};

#[test]
fn families_are_read_case_insensitively() {
    assert_eq!(parse_nf_family("inet"), Ok(1));
    assert_eq!(parse_nf_family("ip"), Ok(2));
    assert_eq!(parse_nf_family("IPv4"), Ok(2));
    assert_eq!(parse_nf_family("ip6"), Ok(10));
    assert_eq!(parse_nf_family("IPV6"), Ok(10));
    assert_eq!(parse_nf_family("bridge"), Err(NftError::UnsupportedFamily("bridge".to_string())));
    assert_eq!(parse_nf_family(""), Err(NftError::UnsupportedFamily(String::new())));
}

#[test]
fn message_type_carries_the_subsystem() {
    assert_eq!(nft_msg_type(12), 0x0a0c);
    assert_eq!(nft_msg_type(0), 0x0a00);
}

fn header(len: u32, msg_type: u16, flags: u16, seq: u32) -> Vec<u8> {
    let mut v = Vec::new();
    v.extend_from_slice(&len.to_ne_bytes());
    v.extend_from_slice(&msg_type.to_ne_bytes());
    v.extend_from_slice(&flags.to_ne_bytes());
    v.extend_from_slice(&seq.to_ne_bytes());
    v.extend_from_slice(&0u32.to_ne_bytes());
    v
}

fn attr(v: &mut Vec<u8>, len: u16, t: u16) {
    v.extend_from_slice(&len.to_ne_bytes());
    v.extend_from_slice(&t.to_ne_bytes());
}

#[test]
fn request_for_one_element_is_laid_out_exactly() {
    let elements = vec![NftElement { key: vec![1, 2, 3, 4], timeout_secs: 10 }];
    assert!(request_fits("filter", "s", &elements));
    let buf = build_add_elements_request("ip", "filter", "s", &elements).unwrap().unwrap();

    let mut e = header(20, 0x10, 1, 0);
    e.extend_from_slice(&[0, 0, 0, 10]);
    e.extend_from_slice(&header(72, 0x0a0c, 0x0405, 1));
    e.extend_from_slice(&[2, 0, 0, 0]);
    attr(&mut e, 11, 1);
    e.extend_from_slice(b"filter\0\0");
    attr(&mut e, 6, 2);
    e.extend_from_slice(b"s\0\0\0");
    attr(&mut e, 32, 3 | 0x8000);
    attr(&mut e, 28, 0x8000);
    attr(&mut e, 12, 1 | 0x8000);
    attr(&mut e, 8, 1);
    e.extend_from_slice(&[1, 2, 3, 4]);
    attr(&mut e, 12, 4);
    e.extend_from_slice(&10_000u64.to_be_bytes());
    e.extend_from_slice(&header(20, 0x11, 1, 2));
    e.extend_from_slice(&[0, 0, 0, 10]);
    assert_eq!(buf.as_slice(), e.as_slice());
}

#[test]
fn zero_timeout_adds_no_timeout_attribute() {
    let elements = vec![
        NftElement { key: vec![10, 0, 0, 1, 1, 1, 1, 1], timeout_secs: 0 },
        NftElement { key: vec![10, 0, 0, 1, 2, 2, 2, 2], timeout_secs: 0 },
    ];
    let buf = build_add_elements_request("inet", "t", "pairs", &elements).unwrap().unwrap();
    let b = buf.as_slice();
    // Each element: element header, key header, data header, 8 key bytes.
    let element_len = 4 + 4 + 4 + 8;
    let body_len = 4 + 8 + 12 + 4 + 2 * element_len;
    assert_eq!(b.len(), 20 + 16 + body_len + 20);
    assert_eq!(&b[20..24], &((16 + body_len) as u32).to_ne_bytes());
    // The family byte of the set-element message.
    assert_eq!(b[36], 1);
}

#[test]
fn empty_element_list_needs_no_request() {
    assert!(build_add_elements_request("ip", "filter", "s", &[]).unwrap().is_none());
    // The family is not looked at then.
    assert!(build_add_elements_request("nonsense", "filter", "s", &[]).unwrap().is_none());
}

#[test]
fn unsupported_family_is_refused() {
    let elements = vec![NftElement { key: vec![1, 2, 3, 4], timeout_secs: 1 }];
    match build_add_elements_request("arp", "filter", "s", &elements) {
        Err(NftError::UnsupportedFamily(f)) => assert_eq!(f, "arp"),
        _ => panic!("expected an unsupported family"),
    }
}

fn reply(msg_type: u16, extra: &[u8]) -> Vec<u8> {
    let mut v = header((16 + extra.len()) as u32, msg_type, 0, 1);
    v.extend_from_slice(extra);
    v
}

#[test]
fn replies_are_classified() {
    assert_eq!(classify_reply(&[0u8; 10]), ReplyAction::Incomplete);
    assert_eq!(classify_reply(&reply(NLMSG_ERROR, &0i32.to_ne_bytes())), ReplyAction::Finished);
    assert_eq!(classify_reply(&reply(NLMSG_ERROR, &(-1i32).to_ne_bytes())), ReplyAction::Failed(-1));
    assert_eq!(classify_reply(&reply(NLMSG_DONE, &[])), ReplyAction::Finished);
    assert_eq!(classify_reply(&reply(0x0a0c, &[])), ReplyAction::Wait);
    // An error header too short to hold its code still ends the exchange.
    assert_eq!(classify_reply(&reply(NLMSG_ERROR, &[])), ReplyAction::Finished);
}

#[test]
fn family_codes_of_lowercase_names() {
    assert_eq!(family_code("inet"), Some(1));
    assert_eq!(family_code("ipv4"), Some(2));
    assert_eq!(family_code("ipv6"), Some(10));
    assert_eq!(family_code("IP"), None);
    assert_eq!(family_code("arp"), None);
}
