use dns_resolver::client::message::DnsMessage;
use dns_resolver::client::rr::ResourceRecord;

fn sample_response() -> Vec<u8> {
    vec![
        0x00, 0x16, 0x80, 0x80, 0x00, 0x01, 0x00, 0x02, 0x00, 0x00, 0x00, 0x00, 0x03, 0x64, 0x6e,
        0x73, 0x06, 0x67, 0x6f, 0x6f, 0x67, 0x6c, 0x65, 0x03, 0x63, 0x6f, 0x6d, 0x00, 0x00, 0x01,
        0x00, 0x01, 0xc0, 0x0c, 0x00, 0x01, 0x00, 0x01, 0x00, 0x00, 0x02, 0x14, 0x00, 0x04, 0x08,
        0x08, 0x08, 0x08, 0xc0, 0x0c, 0x00, 0x01, 0x00, 0x01, 0x00, 0x00, 0x02, 0x14, 0x00, 0x04,
        0x08, 0x08, 0x04, 0x04,
    ]
}

#[test]
fn encode_valid_address() {
    let enc_addr = DnsMessage::encode_address("dns.google.com").unwrap();
    assert_eq!(enc_addr[0], 3);
    assert_eq!(enc_addr[1..4], ['d' as u8, 'n' as u8, 's' as u8]);
    assert_eq!(enc_addr[4], 6);
    assert_eq!(
        enc_addr[5..11],
        ['g' as u8, 'o' as u8, 'o' as u8, 'g' as u8, 'l' as u8, 'e' as u8]
    );
    assert_eq!(enc_addr[11], 3);
    assert_eq!(enc_addr[12..15], ['c' as u8, 'o' as u8, 'm' as u8]);
}

#[test]
fn decode_valid_address() {
    let enc_addr = DnsMessage::encode_address("dns.google.com").unwrap();
    assert_eq!(DnsMessage::decode_address(&enc_addr).unwrap(), "dns.google.com");
}

#[test]
fn encode_invalid_address() {
    let enc_addr = DnsMessage::encode_address("abc").unwrap();
    assert_eq!(enc_addr[0..5], [3, 'a' as u8, 'b' as u8, 'c' as u8, 0]);
}

#[test]
fn decode_invalid_address() {
    let enc_addr = DnsMessage::encode_address("abc").unwrap();
    assert_eq!(DnsMessage::decode_address(&enc_addr).unwrap(), "abc");
}

#[test]
fn encode_another_invalid_address() {
    let enc_addr = DnsMessage::encode_address(".abc").unwrap();
    assert_eq!(enc_addr[0..5], [3, 'a' as u8, 'b' as u8, 'c' as u8, 0]);
}

#[test]
fn parse_dns_response() {
    let response_bytes = sample_response();

    let dns_response = DnsMessage::parse(&response_bytes).unwrap();
    let q_name = DnsMessage::decode_address(&dns_response.question.q_name).unwrap();
    println!("address: {}", q_name);
    let answers = dns_response.answers;
    println!("IP Address:");
    for answer in answers {
        let ip_addr = answer
            .rr_rdata
            .iter()
            .map(|&seg| seg.to_string())
            .collect::<Vec<String>>()
            .join(".");
        println!("{}", ip_addr);
    }
}

#[test]
fn encode_exact_bytes() {
    let enc = DnsMessage::encode_address("dns.google.com").unwrap();
    let expected: Vec<u8> = vec![
        3, b'd', b'n', b's', 6, b'g', b'o', b'o', b'g', b'l', b'e', 3, b'c', b'o', b'm', 0,
    ];
    assert_eq!(enc, expected);
}

#[test]
fn leading_delimiter_is_tolerated() {
    assert_eq!(
        DnsMessage::encode_address(".abc").unwrap(),
        DnsMessage::encode_address("abc").unwrap()
    );
    assert_eq!(
        DnsMessage::encode_address("a..b.").unwrap(),
        vec![1, b'a', 1, b'b', 0]
    );
    assert_eq!(DnsMessage::encode_address("").unwrap(), vec![0]);
}

#[test]
fn long_label_is_rejected() {
    let ok = "a".repeat(63);
    let enc = DnsMessage::encode_address(&ok).unwrap();
    assert_eq!(enc.len(), 65);
    assert_eq!(enc[0], 63);
    let long = format!("www.{}.com", "a".repeat(64));
    assert!(DnsMessage::encode_address(&long).is_err());
    assert!(DnsMessage::with_id(7, &long).is_err());
}

#[test]
fn name_round_trip() {
    for name in ["a", "example.org", "dns.google.com", "x.y.z.w"] {
        let enc = DnsMessage::encode_address(name).unwrap();
        assert_eq!(DnsMessage::decode_address(&enc).unwrap(), name);
    }
}

#[test]
fn decode_rejects_malformed() {
    assert!(DnsMessage::decode_address(&vec![3, b'a', b'b']).is_err());
    assert!(DnsMessage::decode_address(&vec![1, b'a']).is_err());
    assert!(DnsMessage::decode_address(&vec![0xc0, 0x0c]).is_err());
    assert!(DnsMessage::decode_address(&vec![2, 0xff, 0xfe, 0]).is_err());
    assert_eq!(DnsMessage::decode_address(&vec![0]).unwrap(), "");
}

#[test]
fn compressed_response_is_parsed() {
    let bytes = sample_response();
    let m = DnsMessage::parse(&bytes).unwrap();
    assert_eq!(m.header.id, 0x16);
    assert_eq!(m.header.an_cnt, 2);
    assert_eq!(m.answers.len(), 2);
    assert_eq!(
        DnsMessage::decode_address(&m.question.q_name).unwrap(),
        "dns.google.com"
    );
    assert_eq!(m.answers[0].rr_name, vec![0xc0, 0x0c]);
    assert_eq!(
        DnsMessage::decode_address(&m.answers[0].rr_owner).unwrap(),
        "dns.google.com"
    );
    assert_eq!(m.answers[0].rr_ttl, 532);
    assert_eq!(m.answers[0].host_addr(), Some([8, 8, 8, 8]));
    assert_eq!(m.answers[1].host_addr(), Some([8, 8, 4, 4]));
}

#[test]
fn parse_then_serialize_is_identity() {
    let bytes = sample_response();
    let m = DnsMessage::parse(&bytes).unwrap();
    assert_eq!(m.to_be_bytes().unwrap(), bytes);
}

#[test]
fn parse_rejects_truncation() {
    let bytes = sample_response();
    for cut in [0, 5, 11, 20, 33, 47, 63] {
        assert!(DnsMessage::parse(&bytes[..cut].to_vec()).is_err());
    }
}

#[test]
fn forward_pointer_is_rejected() {
    let mut bytes = sample_response();
    // the first answer's pointer now targets its own position
    bytes[33] = 0x20;
    assert!(DnsMessage::parse(&bytes).is_err());
    assert!(ResourceRecord::parse(&bytes, 32).is_err());
}

#[test]
fn query_bytes() {
    let m = DnsMessage::with_id(0x1234, "abc").unwrap();
    let expected: Vec<u8> = vec![
        0x12, 0x34, 0, 0, 0, 1, 0, 0, 0, 0, 0, 0, 3, b'a', b'b', b'c', 0, 0, 1, 0, 1,
    ];
    assert_eq!(m.to_be_bytes().unwrap(), expected);
    assert_eq!(m.into_bytes().unwrap(), expected);
    let r = DnsMessage::new("abc").unwrap();
    assert_eq!(r.to_be_bytes().unwrap()[2..], expected[2..]);
}

#[test]
fn count_mismatch_is_rejected() {
    let mut m = DnsMessage::with_id(1, "abc").unwrap();
    m.header.an_cnt = 1;
    assert!(m.to_be_bytes().is_err());
    assert!(m.into_bytes().is_err());
}

#[test]
fn oversized_query_is_rejected() {
    let name = vec!["a".repeat(63); 8].join(".");
    let m = DnsMessage::with_id(1, &name).unwrap();
    assert!(m.to_be_bytes().unwrap().len() > 512);
    assert!(m.into_bytes().is_err());
}

#[test]
fn datagram_limit_is_128_bytes() {
    // header 12, then the encoded name, then type and class 4
    let fits = DnsMessage::with_id(1, &"a".repeat(63)).unwrap();
    assert_eq!(fits.into_bytes().unwrap().len(), 81);
    let name = format!("{}.{}", "a".repeat(63), "b".repeat(46));
    let m = DnsMessage::with_id(1, &name).unwrap();
    assert_eq!(m.to_be_bytes().unwrap().len(), 128);
    assert_eq!(m.into_bytes().unwrap().len(), 128);
    let name = format!("{}.{}", "a".repeat(63), "b".repeat(47));
    let m = DnsMessage::with_id(1, &name).unwrap();
    assert_eq!(m.to_be_bytes().unwrap().len(), 129);
    assert!(m.into_bytes().is_err());
}

#[test]
fn pointer_to_non_plain_labels_is_rejected() {
    let mut bytes = sample_response();
    // the second answer points at the first answer's own pointer
    bytes[49] = 0x20;
    assert!(ResourceRecord::parse(&bytes, 48).is_err());
    assert!(DnsMessage::parse(&bytes).is_err());
    // and pointing at the question's labels still works
    assert!(ResourceRecord::parse(&sample_response(), 48).is_ok());
}

#[test]
fn record_serialize() {
    let rr = ResourceRecord {
        rr_name: vec![0xc0, 0x0c],
        rr_owner: vec![0],
        rr_type: 1,
        rr_class: 1,
        rr_ttl: 0x01020304,
        rr_rdlength: 4,
        rr_rdata: vec![10, 0, 0, 1],
        rr_rdata_offset: 0,
    };
    assert_eq!(
        rr.to_be_bytes(),
        vec![0xc0, 0x0c, 0, 1, 0, 1, 1, 2, 3, 4, 0, 4, 10, 0, 0, 1]
    );
    assert!(rr.is_host_addr());
    assert_eq!(rr.host_addr(), Some([10, 0, 0, 1]));
}

#[test]
fn decode_name_follows_pointer() {
    let bytes = sample_response();
    let (name, next) = DnsMessage::decode_name(&bytes, 12).unwrap();
    assert_eq!(name, "dns.google.com");
    assert_eq!(next, 28);
    let (name, next) = DnsMessage::decode_name(&bytes, 32).unwrap();
    assert_eq!(name, "dns.google.com");
    assert_eq!(next, 34);
}

#[test]
fn decode_name_labels_then_pointer() {
    let mut bytes = sample_response();
    let at = bytes.len();
    bytes.extend_from_slice(&[3, b'w', b'w', b'w', 0xc0, 0x10, 0xff]);
    let (name, next) = DnsMessage::decode_name(&bytes, at).unwrap();
    assert_eq!(name, "www.google.com");
    assert_eq!(next, at + 6);
}

#[test]
fn decode_name_rejects_bad_pointers() {
    let mut bytes = sample_response();
    let at = bytes.len();
    // points at itself
    bytes.extend_from_slice(&[0xc0, at as u8]);
    assert!(DnsMessage::decode_name(&bytes, at).is_err());
    // pointer cut short
    let bytes2 = vec![0u8, 0xc0];
    assert!(DnsMessage::decode_name(&bytes2, 1).is_err());
    // no terminator
    assert!(DnsMessage::decode_name(&vec![2, b'a', b'b'], 0).is_err());
}
