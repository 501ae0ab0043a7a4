use xdp_compatibility::{
    build_dns_query, check_packet, dns_question_end, encode_qname, endpoint_query, random_txid,
    reverse_ptr_qname, validate_dns_response, DnsValidationError, Ipv4Addr,
};

fn header_u16(packet: &[u8], offset: usize) -> u16 {
    u16::from_be_bytes([packet[offset], packet[offset + 1]])
}

// mock a DNS response from a request
fn make_response_from_request(request: &[u8], txid: u16) -> Vec<u8> {
    let mut response = request.to_vec();
    response[0..2].copy_from_slice(&txid.to_be_bytes());
    response[2..4].copy_from_slice(&0x8180u16.to_be_bytes()); // QR=1, RD=1, RA=1, RCODE=0
    response[6..8].copy_from_slice(&1u16.to_be_bytes()); // ANCOUNT
    response
}

#[test]
fn reverse_ptr_qname_is_encoded_in_reverse_octet_order() {
    let qname = reverse_ptr_qname(Ipv4Addr::new(1, 2, 3, 4));
    assert_eq!(qname, "4.3.2.1.in-addr.arpa");
}

#[test]
fn build_dns_query_sets_expected_header_and_question_fields() {
    let txid = 0x1234;
    let qname = reverse_ptr_qname(Ipv4Addr::new(8, 8, 4, 4));
    let packet = build_dns_query(txid, &qname).expect("valid qname should encode");

    assert_eq!(header_u16(&packet, 0), txid);
    assert_eq!(header_u16(&packet, 2), 0x0100); // RD set
    assert_eq!(header_u16(&packet, 4), 1); // QDCOUNT
    assert_eq!(header_u16(&packet, 6), 0); // ANCOUNT
    assert_eq!(header_u16(&packet, 8), 0); // NSCOUNT
    assert_eq!(header_u16(&packet, 10), 0); // ARCOUNT

    let q_end = dns_question_end(&packet).expect("request question should be well-formed");
    assert_eq!(header_u16(&packet, q_end - 4), 12); // QTYPE PTR
    assert_eq!(header_u16(&packet, q_end - 2), 1); // QCLASS IN
}

#[test]
fn dns_question_end_rejects_truncated_qname() {
    let txid = 0x4242;
    let qname = reverse_ptr_qname(Ipv4Addr::new(1, 1, 1, 1));
    let mut packet = build_dns_query(txid, &qname).expect("query build succeeds");
    packet.pop(); // truncate final QCLASS byte
    assert!(dns_question_end(&packet).is_none());
}

#[test]
fn validate_dns_response_accepts_matching_response() {
    let txid = 0x1001;
    let qname = reverse_ptr_qname(Ipv4Addr::new(9, 9, 9, 9));
    let request = build_dns_query(txid, &qname).expect("query build succeeds");
    let response = make_response_from_request(&request, txid);
    assert!(validate_dns_response(&response, &request, txid).is_ok());
}

#[test]
fn validate_dns_response_ignores_wrong_txid() {
    let txid = 0x1001u16;
    let qname = reverse_ptr_qname(Ipv4Addr::new(9, 9, 9, 9));
    let request = build_dns_query(txid, &qname).expect("query build succeeds");
    let response = make_response_from_request(&request, txid.wrapping_add(1));
    assert!(matches!(
        validate_dns_response(&response, &request, txid),
        Err(DnsValidationError::TxidMismatch)
    ));
}

#[test]
fn validate_dns_response_flags_question_mismatch() {
    let txid = 0x1001;
    let qname = reverse_ptr_qname(Ipv4Addr::new(9, 9, 9, 9));
    let request = build_dns_query(txid, &qname).expect("query build succeeds");
    let other_qname = reverse_ptr_qname(Ipv4Addr::new(1, 0, 0, 127));
    let other = build_dns_query(txid, &other_qname).expect("query build succeeds");
    let response = make_response_from_request(&other, txid);
    assert!(matches!(
        validate_dns_response(&response, &request, txid),
        Err(DnsValidationError::Mismatch("question mismatch"))
    ));
}

#[test]
fn octets_are_written_in_decimal_without_leading_zeros() {
    assert_eq!(
        reverse_ptr_qname(Ipv4Addr::new(0, 9, 10, 99)),
        "99.10.9.0.in-addr.arpa"
    );
    assert_eq!(
        reverse_ptr_qname(Ipv4Addr::new(100, 105, 250, 255)),
        "255.250.105.100.in-addr.arpa"
    );
    assert_eq!(Ipv4Addr::new(1, 2, 3, 4).octets(), [1, 2, 3, 4]);
}

#[test]
fn every_octet_is_written_like_the_standard_library_does() {
    for octet in 0..=255u8 {
        let name = reverse_ptr_qname(Ipv4Addr::new(octet, 0, 0, octet));
        assert_eq!(name, format!("{}.0.0.{}.in-addr.arpa", octet, octet));
    }
}

#[test]
fn encode_qname_puts_a_length_before_each_label() {
    assert_eq!(
        encode_qname("ab.c.arpa").unwrap(),
        [2, b'a', b'b', 1, b'c', 4, b'a', b'r', b'p', b'a', 0]
    );
}

#[test]
fn encode_qname_keeps_empty_labels() {
    assert_eq!(encode_qname("").unwrap(), [0, 0]);
    assert_eq!(encode_qname("a.").unwrap(), [1, b'a', 0, 0]);
    assert_eq!(encode_qname("a..b").unwrap(), [1, b'a', 0, 1, b'b', 0]);
    assert_eq!(encode_qname(".").unwrap(), [0, 0, 0]);
}

#[test]
fn encode_qname_counts_bytes_not_characters() {
    assert_eq!(
        encode_qname("\u{e9}.\u{1f600}").unwrap(),
        [2, 0xc3, 0xa9, 4, 0xf0, 0x9f, 0x98, 0x80, 0]
    );
}

#[test]
fn encode_qname_rejects_a_label_beyond_its_length_byte() {
    let longest = "x".repeat(255);
    let encoded = encode_qname(&longest).unwrap();
    assert_eq!(encoded.len(), 257);
    assert_eq!(encoded[0], 255);
    assert!(encode_qname(&"x".repeat(256)).is_none());
    assert!(encode_qname(&format!("a.{}.b", "x".repeat(256))).is_none());
    assert!(build_dns_query(1, &"x".repeat(256)).is_none());
}

#[test]
fn different_names_are_encoded_differently() {
    assert_ne!(encode_qname("a.b"), encode_qname("ab"));
    assert_ne!(encode_qname("a.b"), encode_qname("a.b."));
    assert_ne!(encode_qname("ab.c"), encode_qname("a.bc"));
}

#[test]
fn build_dns_query_is_header_name_type_and_class() {
    assert_eq!(
        build_dns_query(0xabcd, "a.b").unwrap(),
        [
            0xab, 0xcd, 0x01, 0x00, 0, 1, 0, 0, 0, 0, 0, 0, // header
            1, b'a', 1, b'b', 0, // name
            0, 12, 0, 1, // type and class
        ]
    );
}

#[test]
fn question_of_a_well_formed_query_fills_it() {
    let packet = build_dns_query(7, &format!("{}.arpa", "x".repeat(63))).unwrap();
    assert_eq!(dns_question_end(&packet), Some(packet.len()));
}

#[test]
fn question_of_an_ill_formed_query_does_not_fill_it() {
    let packet = build_dns_query(7, &format!("{}.arpa", "x".repeat(64))).unwrap();
    assert_eq!(dns_question_end(&packet), None);
    let packet = build_dns_query(7, "a..b").unwrap();
    assert_eq!(dns_question_end(&packet), Some(19));
    assert_eq!(packet.len(), 22);
}

#[test]
fn question_is_found_in_every_packet_that_holds_it_and_in_no_shorter_one() {
    let mut packet = build_dns_query(7, "in-addr.arpa").unwrap();
    let end = packet.len();
    packet.extend_from_slice(&[1, 2, 3]);
    assert_eq!(dns_question_end(&packet), Some(end));
    for len in 0..end {
        assert_eq!(dns_question_end(&packet[..len]), None);
    }
    assert_eq!(dns_question_end(&packet[..end]), Some(end));
}

#[test]
fn endpoint_query_asks_for_the_endpoint_itself() {
    let packet = endpoint_query(0x0102, Ipv4Addr::new(8, 8, 4, 4));
    assert_eq!(
        packet,
        build_dns_query(0x0102, "4.4.8.8.in-addr.arpa").unwrap()
    );
    assert_eq!(dns_question_end(&packet), Some(packet.len()));
}

fn reason(checked: Result<(), DnsValidationError>) -> &'static str {
    match checked {
        Err(DnsValidationError::Mismatch(reason)) => reason,
        Err(DnsValidationError::TxidMismatch) => "other txid",
        Ok(()) => "accepted",
    }
}

#[test]
fn each_fault_has_its_reason() {
    let request = endpoint_query(0x1001, Ipv4Addr::new(9, 9, 9, 9));
    let good = make_response_from_request(&request, 0x1001);

    assert_eq!(
        reason(validate_dns_response(&good[..11], &request, 0x1001)),
        "packet too short"
    );
    assert_eq!(
        reason(validate_dns_response(&good, &request, 0x1002)),
        "other txid"
    );

    let mut packet = good.clone();
    packet[2] = 0x7f;
    assert_eq!(
        reason(validate_dns_response(&packet, &request, 0x1001)),
        "not a DNS response"
    );

    let mut packet = good.clone();
    packet[3] = 0x83; // NXDOMAIN
    assert_eq!(
        reason(validate_dns_response(&packet, &request, 0x1001)),
        "rcode is non-zero"
    );

    let mut packet = good.clone();
    packet[5] = 0;
    assert_eq!(
        reason(validate_dns_response(&packet, &request, 0x1001)),
        "missing question section"
    );

    let mut packet = good.clone();
    packet[7] = 0;
    assert_eq!(
        reason(validate_dns_response(&packet, &request, 0x1001)),
        "no answers in response"
    );

    let mut packet = good.clone();
    packet[12] = 64;
    assert_eq!(
        reason(validate_dns_response(&packet, &request, 0x1001)),
        "invalid response question"
    );

    let mut packet = good.clone();
    packet[13] = b'8';
    assert_eq!(
        reason(validate_dns_response(&packet, &request, 0x1001)),
        "question mismatch"
    );
}

#[test]
fn other_flags_and_trailing_records_do_not_matter() {
    let request = endpoint_query(5, Ipv4Addr::new(1, 1, 1, 1));
    let mut packet = make_response_from_request(&request, 5);
    packet[2] = 0xff;
    packet[3] = 0xf0;
    packet[4] = 1;
    packet[5] = 0;
    packet[6] = 1;
    packet[7] = 0;
    packet.extend_from_slice(&[0xc0, 0x0c, 0, 12, 0, 1]);
    assert!(validate_dns_response(&packet, &request, 5).is_ok());
}

#[test]
fn packet_faults_are_found_without_a_request() {
    let packet = [0u8; 12];
    assert_eq!(
        reason(validate_dns_response(&packet, &[], 0)),
        "not a DNS response"
    );
    assert_eq!(reason(validate_dns_response(&packet, &[], 1)), "other txid");
}

#[test]
fn check_packet_finds_the_question_or_the_fault() {
    let request = endpoint_query(6, Ipv4Addr::new(1, 1, 1, 1));
    let mut packet = make_response_from_request(&request, 6);
    packet.push(0);
    assert!(matches!(check_packet(&packet, 6), Ok(end) if end == request.len()));
    assert!(matches!(
        check_packet(&packet, 7),
        Err(DnsValidationError::TxidMismatch)
    ));
    assert_eq!(
        reason(check_packet(&packet[..20], 6).map(|_| ())),
        "invalid response question"
    );
}

#[test]
fn query_is_not_taken_for_its_answer() {
    let request = endpoint_query(77, Ipv4Addr::new(8, 8, 8, 8));
    assert_eq!(
        reason(validate_dns_response(&request, &request, 77)),
        "not a DNS response"
    );
}

#[test]
fn random_txid_is_not_zero_and_varies() {
    let drawn: Vec<u16> = (0..256).map(|_| random_txid()).collect();
    assert!(drawn.iter().all(|txid| *txid != 0));
    assert!(drawn.iter().any(|txid| *txid != drawn[0]));
}
