use microdns::{
    build_dns_query, merge_ip_reply, merge_server_ips,
    nonempty_or_no_records, parse_answer, parse_dns_header, parse_dns_name, parse_ip_records,
    parse_mx_records, skip_question, DnsConfig, DnsHeader, DnsLookup, Error, IpAddress,
    LookupAction, MxRecord, RecordData, ServerIpRecord, DEFAULT_DNS_SERVERS, DNS_TYPE_A,
    DNS_TYPE_AAAA, DNS_TYPE_MX,
};

fn header(flags: u16, questions: u16, answers: u16) -> Vec<u8> {
    let mut out = vec![0x12, 0x34];
    out.extend_from_slice(&flags.to_be_bytes());
    out.extend_from_slice(&questions.to_be_bytes());
    out.extend_from_slice(&answers.to_be_bytes());
    out.extend_from_slice(&[0, 0, 0, 0]);
    out
}

/// example.com in wire form
const EXAMPLE: [u8; 13] = [7, b'e', b'x', b'a', b'm', b'p', b'l', b'e', 3, b'c', b'o', b'm', 0];

fn record(name: &[u8], record_type: u16, rdata: &[u8]) -> Vec<u8> {
    let mut out = name.to_vec();
    out.extend_from_slice(&record_type.to_be_bytes());
    out.extend_from_slice(&[0x00, 0x01, 0x00, 0x00, 0x0E, 0x10]);
    out.extend_from_slice(&(rdata.len() as u16).to_be_bytes());
    out.extend_from_slice(rdata);
    out
}

/// A response with one question for example.com and the given answers.
fn example_response(answers: &[Vec<u8>]) -> Vec<u8> {
    let mut out = header(0x8180, 1, answers.len() as u16);
    out.extend_from_slice(&EXAMPLE);
    out.extend_from_slice(&[0x00, 0x0F, 0x00, 0x01]);
    for a in answers {
        out.extend_from_slice(a);
    }
    out
}

fn mx(priority: u16, server_wire: &[u8]) -> Vec<u8> {
    let mut rdata = priority.to_be_bytes().to_vec();
    rdata.extend_from_slice(server_wire);
    record(&[0xC0, 0x0C], DNS_TYPE_MX, &rdata)
}

#[test]
fn header_fields_are_big_endian() {
    let buf = header(0x8180, 1, 2);
    let h = parse_dns_header(&buf).unwrap();
    assert_eq!(
        h,
        DnsHeader { id: 0x1234, flags: 0x8180, questions: 1, answers: 2, authorities: 0, additionals: 0 }
    );
}

#[test]
fn header_shorter_than_twelve_bytes_is_malformed() {
    assert!(matches!(parse_dns_header(&[0u8; 11]), Err(Error::MalformedPacket)));
    assert!(matches!(parse_dns_header(&[]), Err(Error::MalformedPacket)));
}

#[test]
fn header_with_response_code_is_server_error() {
    let buf = header(0x8183, 1, 0);
    assert!(matches!(parse_dns_header(&buf), Err(Error::ServerError(3))));
    let buf = header(0x810F, 0, 0);
    assert!(matches!(parse_dns_header(&buf), Err(Error::ServerError(15))));
}

#[test]
fn skip_question_after_labels_and_after_pointer() {
    let mut buf = header(0, 1, 0);
    buf.extend_from_slice(&EXAMPLE);
    buf.extend_from_slice(&[0, 1, 0, 1]);
    assert_eq!(skip_question(&buf, 12).unwrap(), buf.len());
    let mut buf2 = buf.clone();
    buf2.extend_from_slice(&[0xC0, 0x0C, 0, 1, 0, 1]);
    assert_eq!(skip_question(&buf2, buf.len()).unwrap(), buf2.len());
}

#[test]
fn skip_question_errors() {
    let buf = [3u8, b'a', b'b'];
    assert!(matches!(skip_question(&buf, 0), Err(Error::MalformedPacket)));
    assert!(matches!(skip_question(&buf, 3), Err(Error::MalformedPacket)));
    // name ends but type and class are cut short
    let buf = [1u8, b'a', 0, 0, 1, 0];
    assert!(matches!(skip_question(&buf, 0), Err(Error::MalformedPacket)));
}

#[test]
fn name_with_labels() {
    assert_eq!(parse_dns_name(&EXAMPLE, 0).unwrap(), "example.com");
    assert_eq!(parse_dns_name(&[0u8], 0).unwrap(), "");
}

#[test]
fn name_with_compression_pointer() {
    let mut buf = EXAMPLE.to_vec();
    // mail + pointer to offset 0
    buf.extend_from_slice(&[4, b'm', b'a', b'i', b'l', 0xC0, 0x00]);
    assert_eq!(parse_dns_name(&buf, 13).unwrap(), "mail.example.com");
    // a bare pointer
    buf.extend_from_slice(&[0xC0, 13]);
    assert_eq!(parse_dns_name(&buf, 20).unwrap(), "mail.example.com");
}

#[test]
fn name_pointing_to_root_keeps_trailing_dot() {
    let buf = [0u8, 1, b'a', 0xC0, 0x00];
    assert_eq!(parse_dns_name(&buf, 1).unwrap(), "a.");
}

#[test]
fn name_compression_loop_is_malformed() {
    // a pointer to itself
    let buf = [0xC0u8, 0x00];
    assert!(matches!(parse_dns_name(&buf, 0), Err(Error::MalformedPacket)));
    // two pointers to each other
    let buf = [1u8, b'a', 0xC0, 0x04, 1, b'b', 0xC0, 0x00];
    assert!(matches!(parse_dns_name(&buf, 0), Err(Error::MalformedPacket)));
}

#[test]
fn name_follows_ten_pointers_but_not_eleven() {
    // offset 0: root; then a chain of pointers, each to the one before
    let mut buf = vec![1u8, b'z', 0];
    let mut prev = 0u8;
    for _ in 0..11 {
        let here = buf.len() as u8;
        buf.extend_from_slice(&[0xC0, prev]);
        prev = here;
    }
    // pointer k sits at 3 + 2 * (k - 1); reading from it follows k pointers
    assert_eq!(parse_dns_name(&buf, 3 + 2 * 9).unwrap(), "z");
    assert!(matches!(parse_dns_name(&buf, 3 + 2 * 10), Err(Error::MalformedPacket)));
}

#[test]
fn name_errors() {
    assert!(matches!(parse_dns_name(&EXAMPLE, 13), Err(Error::MalformedPacket)));
    // label runs past the end
    assert!(matches!(parse_dns_name(&[5u8, b'a', b'b'], 0), Err(Error::MalformedPacket)));
    // no terminating zero
    assert!(matches!(parse_dns_name(&[1u8, b'a'], 0), Err(Error::MalformedPacket)));
    // pointer cut short
    assert!(matches!(parse_dns_name(&[1u8, b'a', 0xC0], 0), Err(Error::MalformedPacket)));
}

#[test]
fn name_with_invalid_utf8_uses_replacement_character() {
    let buf = [2u8, 0xFF, b'a', 0];
    assert_eq!(parse_dns_name(&buf, 0).unwrap(), "\u{FFFD}a");
    let buf = [2u8, 0xC3, 0xA9, 0];
    assert_eq!(parse_dns_name(&buf, 0).unwrap(), "\u{e9}");
}

#[test]
fn answer_of_each_type() {
    let buf = record(&EXAMPLE, DNS_TYPE_A, &[93, 184, 216, 34]);
    let (rec, next) = parse_answer(&buf, 0).unwrap();
    assert_eq!(rec.record_type, DNS_TYPE_A);
    assert!(matches!(rec.data, RecordData::A([93, 184, 216, 34])));
    assert_eq!(next, buf.len());

    let v6 = [0x26u8, 0x06, 0x28, 0x00, 0x02, 0x20, 0, 1, 0x2, 0x48, 0x18, 0x93, 0x25, 0xc8, 0x19, 0x46];
    let buf = record(&EXAMPLE, DNS_TYPE_AAAA, &v6);
    let (rec, next) = parse_answer(&buf, 0).unwrap();
    assert!(matches!(rec.data, RecordData::AAAA(b) if b == v6));
    assert_eq!(next, buf.len());

    let mut buf = EXAMPLE.to_vec();
    let start = buf.len();
    buf.extend_from_slice(&mx(10, &[4, b'm', b'a', b'i', b'l', 0xC0, 0x0C]));
    // the pointers point to offset 12: put example.com there, after a header
    let mut full = header(0, 0, 1);
    let base = full.len();
    full.extend_from_slice(&buf);
    let (rec, next) = parse_answer(&full, base + start).unwrap();
    match rec.data {
        RecordData::MX { priority, server } => {
            assert_eq!(priority, 10);
            assert_eq!(server, "mail.example.com");
        }
        other => panic!("expected MX, got {:?}", other),
    }
    assert_eq!(next, full.len());

    let buf = record(&[0], 16, b"\x05hello");
    let (rec, next) = parse_answer(&buf, 0).unwrap();
    assert_eq!(rec.record_type, 16);
    assert!(matches!(rec.data, RecordData::Unknown));
    assert_eq!(next, buf.len());
}

#[test]
fn answer_errors() {
    // A record whose data is not four bytes
    let buf = record(&[0], DNS_TYPE_A, &[1, 2, 3]);
    assert!(matches!(parse_answer(&buf, 0), Err(Error::MalformedPacket)));
    // AAAA record whose data is not sixteen bytes
    let buf = record(&[0], DNS_TYPE_AAAA, &[1, 2, 3, 4]);
    assert!(matches!(parse_answer(&buf, 0), Err(Error::MalformedPacket)));
    // MX record shorter than its priority
    let buf = record(&[0], DNS_TYPE_MX, &[1]);
    assert!(matches!(parse_answer(&buf, 0), Err(Error::MalformedPacket)));
    // data length past the end
    let mut buf = record(&[0], DNS_TYPE_A, &[1, 2, 3, 4]);
    buf.truncate(buf.len() - 1);
    assert!(matches!(parse_answer(&buf, 0), Err(Error::MalformedPacket)));
    // record header cut short
    let buf = [0u8, 0, 1, 0, 1];
    assert!(matches!(parse_answer(&buf, 0), Err(Error::MalformedPacket)));
    assert!(matches!(parse_answer(&buf, 5), Err(Error::MalformedPacket)));
}

#[test]
fn query_for_example_com() {
    let q = build_dns_query("example.com", DNS_TYPE_A).unwrap();
    let mut expected = vec![0x00, 0x01, 0x01, 0x00, 0x00, 0x01, 0, 0, 0, 0, 0, 0];
    expected.extend_from_slice(&EXAMPLE);
    expected.extend_from_slice(&[0x00, 0x01, 0x00, 0x01]);
    assert_eq!(q, expected);
    let q = build_dns_query("example.com", DNS_TYPE_AAAA).unwrap();
    assert_eq!(&q[q.len() - 4..], &[0x00, 0x1C, 0x00, 0x01]);
}

#[test]
fn query_skips_empty_labels() {
    let a = build_dns_query("a..b.", DNS_TYPE_MX).unwrap();
    let b = build_dns_query("a.b", DNS_TYPE_MX).unwrap();
    assert_eq!(a, b);
    let root = build_dns_query("", DNS_TYPE_A).unwrap();
    assert_eq!(root.len(), 12 + 1 + 4);
    assert_eq!(build_dns_query(".", DNS_TYPE_A).unwrap(), root);
}

#[test]
fn query_label_longer_than_63_bytes_is_malformed() {
    let long = "a".repeat(64);
    assert!(matches!(build_dns_query(&format!("{}.com", long), DNS_TYPE_A), Err(Error::MalformedPacket)));
    let ok = "a".repeat(63);
    assert!(build_dns_query(&format!("{}.com", ok), DNS_TYPE_A).is_ok());
    assert!(matches!(build_dns_query(&"b".repeat(64), DNS_TYPE_A), Err(Error::MalformedPacket)));
}

#[test]
fn query_reads_back_as_the_domain() {
    let q = build_dns_query("mail.example.com.", DNS_TYPE_MX).unwrap();
    let h = parse_dns_header(&q).unwrap();
    assert_eq!((h.id, h.flags, h.questions, h.answers), (1, 0x0100, 1, 0));
    assert_eq!(skip_question(&q, 12).unwrap(), q.len());
    assert_eq!(parse_dns_name(&q, 12).unwrap(), "mail.example.com");
}

#[test]
fn mx_records_are_sorted_by_priority_keeping_order_of_ties() {
    let buf = example_response(&[
        mx(20, &[1, b'b', 0]),
        mx(10, &[1, b'a', 0]),
        record(&[0xC0, 0x0C], DNS_TYPE_A, &[1, 2, 3, 4]),
        mx(20, &[1, b'c', 0]),
        mx(5, &[1, b'd', 0]),
    ]);
    let records = parse_mx_records(&buf).unwrap();
    let got: Vec<(u16, &str)> = records.iter().map(|r| (r.priority, r.server.as_str())).collect();
    assert_eq!(got, vec![(5, "d"), (10, "a"), (20, "b"), (20, "c")]);
    assert_eq!(records[0], MxRecord { priority: 5, server: "d".to_string() });
}

#[test]
fn mx_records_errors() {
    // no answers at all
    let buf = example_response(&[]);
    assert!(matches!(parse_mx_records(&buf), Err(Error::NoRecordsFound)));
    // answers, but none of them MX
    let buf = example_response(&[record(&[0xC0, 0x0C], DNS_TYPE_A, &[1, 2, 3, 4])]);
    assert!(matches!(parse_mx_records(&buf), Err(Error::NoRecordsFound)));
    // server error
    let mut buf = example_response(&[mx(1, &[0])]);
    buf[3] = 0x82;
    assert!(matches!(parse_mx_records(&buf), Err(Error::ServerError(2))));
    // answer count larger than the answers present
    let mut buf = example_response(&[mx(1, &[0])]);
    buf[7] = 2;
    assert!(matches!(parse_mx_records(&buf), Err(Error::MalformedPacket)));
}

#[test]
fn ip_records_in_answer_order() {
    let v6 = [0xfe, 0x80, 0, 0, 0, 0, 0, 0, 0, 0, 0, 0, 0, 0, 0, 1];
    let buf = example_response(&[
        record(&[0xC0, 0x0C], DNS_TYPE_AAAA, &v6),
        mx(10, &[1, b'a', 0]),
        record(&[0xC0, 0x0C], DNS_TYPE_A, &[10, 0, 0, 1]),
    ]);
    let ips = parse_ip_records(&buf).unwrap();
    assert_eq!(ips, vec![IpAddress::V6(v6), IpAddress::V4([10, 0, 0, 1])]);
    let buf = example_response(&[mx(10, &[1, b'a', 0])]);
    assert!(matches!(parse_ip_records(&buf), Err(Error::NoRecordsFound)));
}

#[test]
fn default_config() {
    let c = DnsConfig::default();
    assert_eq!(c.servers, vec!["1.1.1.1", "1.0.0.1", "8.8.8.8", "8.8.4.4"]);
    assert_eq!(c.timeout, 5);
    assert_eq!(DEFAULT_DNS_SERVERS, ["1.1.1.1", "1.0.0.1", "8.8.8.8", "8.8.4.4"]);
}

#[test]
fn lookup_stops_at_first_response_or_other_error() {
    let config = DnsConfig { servers: vec!["10.0.0.1".to_string(), "10.0.0.2".to_string(), "10.0.0.3".to_string()], timeout: 2 };
    let mut lookup = DnsLookup::new("example.com", DNS_TYPE_A, Some(config.clone())).unwrap();
    assert_eq!(lookup.timeout(), 2);
    assert!(matches!(lookup.next_action(), LookupAction::Send(a) if a == "10.0.0.1:53"));
    let io = std::io::Error::new(std::io::ErrorKind::Other, "unreachable");
    assert!(lookup.handle_reply(Err(Error::Io(io))).is_none());
    assert!(matches!(lookup.next_action(), LookupAction::Send(a) if a == "10.0.0.2:53"));
    let done = lookup.handle_reply(Ok(vec![1, 2, 3]));
    assert!(matches!(done, Some(Ok(v)) if v == vec![1, 2, 3]));

    let mut lookup = DnsLookup::new("example.com", DNS_TYPE_A, Some(config)).unwrap();
    assert!(matches!(lookup.handle_reply(Err(Error::MalformedPacket)), Some(Err(Error::MalformedPacket))));

    let empty = DnsConfig { servers: vec![], timeout: 1 };
    let lookup = DnsLookup::new("example.com", DNS_TYPE_A, Some(empty)).unwrap();
    assert!(matches!(lookup.next_action(), LookupAction::Fail(Error::Timeout)));

    let long = format!("{}.com", "x".repeat(70));
    assert!(matches!(DnsLookup::new(&long, DNS_TYPE_A, None), Err(Error::MalformedPacket)));
}

#[test]
fn merging_address_replies() {
    let mut ips = Vec::new();
    let a = example_response(&[record(&[0xC0, 0x0C], DNS_TYPE_A, &[1, 2, 3, 4])]);
    assert!(merge_ip_reply(&mut ips, Ok(a)).is_ok());
    assert!(merge_ip_reply(&mut ips, Err(Error::NoRecordsFound)).is_ok());
    let none = example_response(&[]);
    assert!(merge_ip_reply(&mut ips, Ok(none)).is_ok());
    assert_eq!(ips, vec![IpAddress::V4([1, 2, 3, 4])]);
    assert!(matches!(merge_ip_reply(&mut ips, Err(Error::Timeout)), Err(Error::Timeout)));
    assert!(matches!(merge_ip_reply(&mut ips, Ok(vec![0; 3])), Err(Error::MalformedPacket)));
    assert_eq!(ips.len(), 1);
    assert!(matches!(nonempty_or_no_records(Vec::<IpAddress>::new()), Err(Error::NoRecordsFound)));
    assert_eq!(nonempty_or_no_records(ips.clone()).unwrap(), ips);
}

#[test]
fn merging_server_addresses() {
    let mut servers = Vec::new();
    assert!(merge_server_ips(&mut servers, "a".to_string(), Ok(vec![IpAddress::V4([1, 1, 1, 1])])).is_ok());
    assert!(merge_server_ips(&mut servers, "b".to_string(), Err(Error::NoRecordsFound)).is_ok());
    assert!(matches!(merge_server_ips(&mut servers, "c".to_string(), Err(Error::ServerError(2))), Err(Error::ServerError(2))));
    assert_eq!(servers, vec![ServerIpRecord { server: "a".to_string(), ip_addresses: vec![IpAddress::V4([1, 1, 1, 1])] }]);
}

#[test]
fn error_messages() {
    assert_eq!(Error::Timeout.message(), "DNS query timed out");
    assert_eq!(Error::ServerError(3).message(), "DNS server returned error code: 3");
    assert_eq!(Error::ServerError(65535).message(), "DNS server returned error code: 65535");
    assert_eq!(Error::ServerError(0).message(), "DNS server returned error code: 0");
    assert_eq!(Error::NoRecordsFound.message(), "No DNS records found");
    assert_eq!(Error::MalformedPacket.message(), "Malformed DNS packet");
    let io = std::io::Error::new(std::io::ErrorKind::Other, "boom");
    assert_eq!(Error::from(io).message(), "IO error: boom");
}

#[test]
fn non_ascii_query_reads_back_as_the_domain() {
    let q = build_dns_query("bücher..例え.jp.", DNS_TYPE_A).unwrap();
    assert_eq!(parse_dns_name(&q, 12).unwrap(), "bücher.例え.jp");
    assert_eq!(skip_question(&q, 12).unwrap(), q.len());
}
