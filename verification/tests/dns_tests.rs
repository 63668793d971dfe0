use dns_nftsetter::cache::CnameCache;
use dns_nftsetter::config::parse_config;
use dns_nftsetter::dns::{
    ipv4_octets, parse_packet, process_dns_answers, process_dns_payload, select_dns_response, AnswerData,
    DnsAnswer, PacketSlice, SniffedDnsResponse, UdpDatagram,
};

fn write_name(buf: &mut Vec<u8>, domain: &str) {
    for part in domain.split('.') {
        if part.is_empty() {
            continue;
        }
        buf.push(part.len() as u8);
        buf.extend_from_slice(part.as_bytes());
    }
    buf.push(0);
}

fn write_cname_answer(buf: &mut Vec<u8>, name: &str, target: &str) {
    write_name(buf, name);
    buf.extend_from_slice(&[0x00, 0x05]); // TYPE: CNAME
    buf.extend_from_slice(&[0x00, 0x01]); // CLASS: IN
    buf.extend_from_slice(&[0x00, 0x00, 0x00, 0x1e]); // TTL: 30
    let mut target_bytes = Vec::new();
    write_name(&mut target_bytes, target);
    buf.extend_from_slice(&(target_bytes.len() as u16).to_be_bytes());
    buf.extend_from_slice(&target_bytes);
}

fn write_a_answer(buf: &mut Vec<u8>, name: &str, ip: [u8; 4], ttl: u32) {
    write_name(buf, name);
    buf.extend_from_slice(&[0x00, 0x01]); // TYPE: A
    buf.extend_from_slice(&[0x00, 0x01]); // CLASS: IN
    buf.extend_from_slice(&ttl.to_be_bytes());
    buf.extend_from_slice(&[0x00, 0x04]); // RDLENGTH: 4
    buf.extend_from_slice(&ip);
}

fn header(answers: u16) -> Vec<u8> {
    let mut payload = Vec::new();
    payload.extend_from_slice(&[0x12, 0x34]); // ID
    payload.extend_from_slice(&[0x81, 0x80]); // Flags (Response)
    payload.extend_from_slice(&[0x00, 0x01]); // QDCOUNT: 1
    payload.extend_from_slice(&answers.to_be_bytes()); // ANCOUNT
    payload.extend_from_slice(&[0x00, 0x00]); // NSCOUNT: 0
    payload.extend_from_slice(&[0x00, 0x00]); // ARCOUNT: 0
    payload
}

fn question(payload: &mut Vec<u8>, name: &str) {
    write_name(payload, name);
    payload.extend_from_slice(&[0x00, 0x01]); // TYPE: A
    payload.extend_from_slice(&[0x00, 0x01]); // CLASS: IN
}

const CLIENT: u32 = 0xC0A8_0164; // 192.168.1.100

#[test]
fn test_cname_filtering_and_resolution() {
    let config_str = "
        * / apple.com / pair_dynamic
        *! / fb.com / global_dynamic
    ";
    let ruleset = parse_config(config_str).unwrap();
    let mut cname_cache = CnameCache::new(10);

    // CNAME: oss.apple.com -> cdn.apple.com
    // CNAME: cdn.apple.com -> gslb.apple.com
    // CNAME: cdn.baidu.com -> gslb.baidu.com (not matching any rules)
    // A: gslb.apple.com -> 1.1.1.1
    // A: gslb.baidu.com -> 2.2.2.2
    let mut payload = header(5);
    question(&mut payload, "oss.apple.com");
    write_cname_answer(&mut payload, "oss.apple.com", "cdn.apple.com");
    write_cname_answer(&mut payload, "cdn.apple.com", "gslb.apple.com");
    write_cname_answer(&mut payload, "cdn.baidu.com", "gslb.baidu.com");
    write_a_answer(&mut payload, "gslb.apple.com", [1, 1, 1, 1], 30);
    write_a_answer(&mut payload, "gslb.baidu.com", [2, 2, 2, 2], 30);

    let received = process_dns_payload(CLIENT, &payload, &ruleset, &mut cname_cache, "ip", "filter", 10);

    // Only the apple.com address (1.1.1.1) was matched.
    assert_eq!(received.len(), 1);
    assert_eq!(received[0].set_name, "pair_dynamic");
    assert_eq!(received[0].domain, "oss.apple.com");
    assert_eq!(received[0].rule_pattern, "apple.com");
    assert_eq!(received[0].key, vec![192, 168, 1, 100, 1, 1, 1, 1]);

    // oss.apple.com -> cdn.apple.com -> gslb.apple.com is associated and resolves to original
    assert_eq!(cname_cache.resolve("gslb.apple.com"), "oss.apple.com");
    // cdn.baidu.com -> gslb.baidu.com is unassociated and was discarded
    assert_eq!(cname_cache.resolve("gslb.baidu.com"), "gslb.baidu.com");
}

#[test]
fn undecodable_payload_changes_nothing() {
    let ruleset = parse_config("* / apple.com / s").unwrap();
    let mut cache = CnameCache::new(4);
    let out = process_dns_payload(CLIENT, &[0x12, 0x34, 0x81], &ruleset, &mut cache, "ip", "filter", 10);
    assert!(out.is_empty());
}

#[test]
fn every_rule_kind_yields_its_command() {
    let ruleset = parse_config(
        "192.168.1.100 / apple.com / per_client\n* / apple.com / pairs\n*! / apple.com / globals\n10.0.0.9 / apple.com / other_client",
    )
    .unwrap();
    let mut cache = CnameCache::new(4);
    let mut payload = header(1);
    question(&mut payload, "www.apple.com");
    write_a_answer(&mut payload, "www.apple.com", [17, 0, 0, 1], 0);
    let out = process_dns_payload(CLIENT, &payload, &ruleset, &mut cache, "inet", "mytable", 42);
    assert_eq!(out.len(), 3);
    assert_eq!(out[0].set_name, "per_client");
    assert_eq!(out[0].key, vec![192, 168, 1, 100, 17, 0, 0, 1]);
    assert_eq!(out[1].set_name, "pairs");
    assert_eq!(out[1].key, vec![192, 168, 1, 100, 17, 0, 0, 1]);
    assert_eq!(out[2].set_name, "globals");
    assert_eq!(out[2].key, vec![17, 0, 0, 1]);
    for c in &out {
        // A zero TTL takes the default timeout.
        assert_eq!(c.timeout_secs, 42);
        assert_eq!(c.family, "inet");
        assert_eq!(c.table, "mytable");
        assert_eq!(c.domain, "www.apple.com");
        assert_eq!(c.rule_pattern, "apple.com");
    }
}

#[test]
fn answers_are_processed_with_their_ttl() {
    let ruleset = parse_config("*! / example.org / s").unwrap();
    let mut cache = CnameCache::new(4);
    let answers = vec![
        DnsAnswer { name: "a.example.org".to_string(), class: 1, ttl: 300, data: AnswerData::A(0x0102_0304) },
        // Not class IN: skipped.
        DnsAnswer { name: "b.example.org".to_string(), class: 3, ttl: 300, data: AnswerData::A(0x0506_0708) },
        DnsAnswer { name: "c.example.org".to_string(), class: 1, ttl: 300, data: AnswerData::Other },
        DnsAnswer { name: "d.other.org".to_string(), class: 1, ttl: 300, data: AnswerData::A(0x0909_0909) },
    ];
    let out = process_dns_answers(CLIENT, &answers, &ruleset, &mut cache, "ip", "filter", 10, 0);
    assert_eq!(out.len(), 1);
    assert_eq!(out[0].key, vec![1, 2, 3, 4]);
    assert_eq!(out[0].timeout_secs, 300);
    assert_eq!(out[0].domain, "a.example.org");
}

#[test]
fn cname_chain_is_attributed_to_the_queried_domain() {
    let ruleset = parse_config("* / shop.com / s").unwrap();
    let mut cache = CnameCache::new(8);
    let answers = vec![
        DnsAnswer {
            name: "www.shop.com".to_string(),
            class: 1,
            ttl: 100,
            data: AnswerData::Cname("edge.cdn.net".to_string()),
        },
        DnsAnswer { name: "edge.cdn.net".to_string(), class: 1, ttl: 100, data: AnswerData::A(0x0A0B_0C0D) },
        // An unrelated CNAME is not cached.
        DnsAnswer {
            name: "x.other.com".to_string(),
            class: 1,
            ttl: 100,
            data: AnswerData::Cname("y.cdn.net".to_string()),
        },
    ];
    let out = process_dns_answers(CLIENT, &answers, &ruleset, &mut cache, "ip", "filter", 10, 5);
    assert_eq!(out.len(), 1);
    assert_eq!(out[0].domain, "www.shop.com");
    assert_eq!(out[0].key, vec![192, 168, 1, 100, 10, 11, 12, 13]);
    assert_eq!(cache.resolve_at("edge.cdn.net", 6), "www.shop.com");
    assert_eq!(cache.resolve_at("y.cdn.net", 6), "y.cdn.net");
}

#[test]
fn octets_are_most_significant_first() {
    assert_eq!(ipv4_octets(0xC0A8_0164), vec![192, 168, 1, 100]);
    assert_eq!(ipv4_octets(0), vec![0, 0, 0, 0]);
}

fn udp_packet_ipv4(src_port: u16, dst: [u8; 4], payload: &[u8]) -> Vec<u8> {
    let builder = etherparse::PacketBuilder::ipv4([8, 8, 8, 8], dst, 64).udp(src_port, 40000);
    let mut out = Vec::with_capacity(builder.size(payload.len()));
    builder.write(&mut out, payload).unwrap();
    out
}

fn udp_frame_ethernet(src_port: u16, dst: [u8; 4], payload: &[u8]) -> Vec<u8> {
    let builder = etherparse::PacketBuilder::ethernet2([1, 2, 3, 4, 5, 6], [6, 5, 4, 3, 2, 1])
        .ipv4([8, 8, 8, 8], dst, 64)
        .udp(src_port, 40000);
    let mut out = Vec::with_capacity(builder.size(payload.len()));
    builder.write(&mut out, payload).unwrap();
    out
}

#[test]
fn parse_packet_reads_ethernet_frames() {
    let frame = udp_frame_ethernet(53, [192, 168, 1, 100], b"dns!");
    let r = parse_packet(&frame, 1).unwrap();
    assert_eq!(r, SniffedDnsResponse { client_ip: CLIENT, dns_payload: b"dns!".to_vec() });
    // An unknown link type is tried as Ethernet first.
    assert_eq!(parse_packet(&frame, 999), Some(r));
    // A datagram from another port is not a DNS response.
    let other = udp_frame_ethernet(5353, [192, 168, 1, 100], b"dns!");
    assert_eq!(parse_packet(&other, 1), None);
}

#[test]
fn parse_packet_reads_raw_ip_and_headers() {
    let pkt = udp_packet_ipv4(53, [10, 0, 0, 1], b"abc");
    let expected = SniffedDnsResponse { client_ip: 0x0A00_0001, dns_payload: b"abc".to_vec() };
    for lt in [12, 101, 128] {
        assert_eq!(parse_packet(&pkt, lt), Some(expected.clone()));
    }
    // Loopback: a 4-byte header first.
    let mut lo = vec![2, 0, 0, 0];
    lo.extend_from_slice(&pkt);
    assert_eq!(parse_packet(&lo, 0), Some(expected.clone()));
    assert_eq!(parse_packet(&lo, 108), Some(expected.clone()));
    assert_eq!(parse_packet(&[1, 2, 3], 0), None);
    // Linux cooked capture: a 16-byte header first.
    let mut sll = vec![0u8; 16];
    sll.extend_from_slice(&pkt);
    assert_eq!(parse_packet(&sll, 113), Some(expected.clone()));
    assert_eq!(parse_packet(&[0u8; 15], 113), None);
    assert_eq!(parse_packet(&pkt, 12), Some(expected));
    // Garbage is refused.
    assert_eq!(parse_packet(&[0xff; 40], 12), None);
}

#[test]
fn select_dns_response_needs_ipv4_udp_from_port_53() {
    let ok = PacketSlice {
        ipv4_destination: Some(7),
        udp: Some(UdpDatagram { source_port: 53, payload: vec![9] }),
    };
    assert_eq!(select_dns_response(ok), Some(SniffedDnsResponse { client_ip: 7, dns_payload: vec![9] }));
    let no_ip = PacketSlice { ipv4_destination: None, udp: Some(UdpDatagram { source_port: 53, payload: vec![] }) };
    assert_eq!(select_dns_response(no_ip), None);
    let no_udp = PacketSlice { ipv4_destination: Some(7), udp: None };
    assert_eq!(select_dns_response(no_udp), None);
    let port = PacketSlice { ipv4_destination: Some(7), udp: Some(UdpDatagram { source_port: 54, payload: vec![] }) };
    assert_eq!(select_dns_response(port), None);
}
