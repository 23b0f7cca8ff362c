use dns_resolver::client::header;
use dns_resolver::client::utility::FormatError;

#[test]
fn create_header() {
    let dns_flags = header::Flag {
        qr: 0,
        op_code: 0,
        aa: 0,
        tc: 0,
        rd: 1,
        ra: 0,
        z: 0,
        r_code: 0,
    };

    let dns_header = header::Header {
        id: 1,
        flags: dns_flags,
        qd_cnt: 1,
        an_cnt: 0,
        ns_cnt: 0,
        ar_cnt: 0,
    };

    assert_eq!(
        dns_header.to_be_bytes(),
        vec![0x00, 0x01, 0x01, 0x00, 0x00, 0x01, 0x00, 0x00, 0x00, 0x00, 0x00, 0x00]
    );
}

#[test]
fn flag_word_packing() {
    let f = header::Flag { qr: 1, op_code: 2, aa: 1, tc: 0, rd: 1, ra: 1, z: 0, r_code: 3 };
    // 1<<15 | 2<<11 | 1<<10 | 1<<8 | 1<<7 | 3
    assert_eq!(f.to_be_bytes(), 0x8000 | 0x1000 | 0x0400 | 0x0100 | 0x0080 | 0x0003);
}

#[test]
fn flag_parse_round_trip() {
    let f = header::Flag::parse(&[0x81, 0x80]);
    assert_eq!(f.qr, 1);
    assert_eq!(f.op_code, 0);
    assert_eq!(f.aa, 0);
    assert_eq!(f.tc, 0);
    assert_eq!(f.rd, 1);
    assert_eq!(f.ra, 1);
    assert_eq!(f.z, 0);
    assert_eq!(f.r_code, 0);
    assert_eq!(f.to_be_bytes(), 0x8180);
    let g = header::Flag::parse(&[0x7f, 0xff]);
    assert_eq!(g.op_code, 15);
    assert_eq!(g.z, 7);
    assert_eq!(g.r_code, 15);
    assert_eq!(g.to_be_bytes(), 0x7fff);
}

#[test]
fn header_parse_at_offset() {
    let bytes = vec![0xaa, 0x00, 0x16, 0x80, 0x80, 0x00, 0x01, 0x00, 0x02, 0x00, 0x03, 0x00, 0x04];
    let (next, h) = header::Header::parse(&bytes, 1).unwrap();
    assert_eq!(next, 13);
    assert_eq!(h.id, 0x16);
    assert_eq!(h.flags.qr, 1);
    assert_eq!(h.flags.ra, 1);
    assert_eq!(h.qd_cnt, 1);
    assert_eq!(h.an_cnt, 2);
    assert_eq!(h.ns_cnt, 3);
    assert_eq!(h.ar_cnt, 4);
    assert_eq!(h.to_be_bytes(), bytes[1..].to_vec());
}

#[test]
fn header_parse_truncated() {
    let bytes = vec![0u8; 11];
    assert!(matches!(header::Header::parse(&bytes, 0), Err(FormatError)));
    let bytes = vec![0u8; 12];
    assert!(header::Header::parse(&bytes, 1).is_err());
    assert!(header::Header::parse(&bytes, 0).is_ok());
}
