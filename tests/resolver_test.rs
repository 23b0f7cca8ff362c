use dns_resolver::client::{get_root_servers, Resolution, Resolver};

fn header(an: u16, ns: u16, ar: u16) -> Vec<u8> {
    let mut v = vec![0x00, 0x07, 0x80, 0x00, 0x00, 0x01];
    for c in [an, ns, ar] {
        v.push((c >> 8) as u8);
        v.push(c as u8);
    }
    v.extend_from_slice(&[3, b'a', b'b', b'c', 0, 0, 1, 0, 1]);
    v
}

fn a_record(v: &mut Vec<u8>, addr: [u8; 4]) {
    v.extend_from_slice(&[0xc0, 0x0c, 0, 1, 0, 1, 0, 0, 0, 60, 0, 4]);
    v.extend_from_slice(&addr);
}

#[test]
fn root_servers_table() {
    let r = get_root_servers();
    assert_eq!(r.len(), 12);
    assert_eq!(r[0], [198, 41, 0, 4]);
    assert_eq!(r[11], [202, 12, 27, 33]);
    let res = Resolver::new();
    assert_eq!(res.frontier, r);
    assert_eq!(res.next, 0);
}

#[test]
fn silent_servers_exhaust_in_n_attempts() {
    let servers = vec![[1, 1, 1, 1], [2, 2, 2, 2], [3, 3, 3, 3]];
    let mut res = Resolver::with_servers(servers.clone());
    let silent = header(0, 0, 0);
    let mut attempts = 0;
    while let Some(s) = res.next_server() {
        assert_eq!(s, servers[attempts]);
        attempts += 1;
        assert_eq!(res.on_response(&silent), Ok(None));
        assert!(attempts <= 3);
    }
    assert_eq!(attempts, 3);
    assert!(res.is_exhausted());
    assert!(matches!(res.outcome(), Resolution::Unresolved));
}

#[test]
fn malformed_response_moves_on() {
    let mut res = Resolver::with_servers(vec![[1, 1, 1, 1]]);
    assert_eq!(res.next_server(), Some([1, 1, 1, 1]));
    assert!(res.on_response(&vec![1, 2, 3]).is_err());
    assert_eq!(res.frontier, vec![[1, 1, 1, 1]]);
    assert_eq!(res.next_server(), None);
    assert!(matches!(res.outcome(), Resolution::Unresolved));
}

#[test]
fn answer_returns_addresses() {
    let mut resp = header(2, 0, 0);
    a_record(&mut resp, [8, 8, 8, 8]);
    a_record(&mut resp, [8, 8, 4, 4]);
    let mut res = Resolver::with_servers(vec![[1, 1, 1, 1]]);
    res.next_server();
    assert_eq!(res.on_response(&resp), Ok(Some(vec![[8, 8, 8, 8], [8, 8, 4, 4]])));
}

#[test]
fn referral_appends_to_frontier() {
    let mut resp = header(0, 0, 2);
    a_record(&mut resp, [9, 9, 9, 9]);
    // a record of another type is skipped
    resp.extend_from_slice(&[0xc0, 0x0c, 0, 28, 0, 1, 0, 0, 0, 60, 0, 1, 7]);
    let mut res = Resolver::with_servers(vec![[1, 1, 1, 1], [2, 2, 2, 2]]);
    res.next_server();
    assert_eq!(res.on_response(&resp), Ok(None));
    assert_eq!(res.frontier, vec![[1, 1, 1, 1], [2, 2, 2, 2], [9, 9, 9, 9]]);
    assert_eq!(res.next_server(), Some([2, 2, 2, 2]));
    assert_eq!(res.next_server(), Some([9, 9, 9, 9]));
    assert_eq!(res.next_server(), None);
}

/// An NS record owned by `org` whose data is the label `ns1` followed by a
/// pointer to the question name `abc` at offset 12.
fn ns_record(v: &mut Vec<u8>) {
    v.extend_from_slice(&[3, b'o', b'r', b'g', 0, 0, 2, 0, 1, 0, 0, 0, 60, 0, 6]);
    v.extend_from_slice(&[3, b'n', b's', b'1', 0xc0, 0x0c]);
}

#[test]
fn authority_only_collects_names() {
    let mut resp = header(0, 1, 0);
    ns_record(&mut resp);
    let mut res = Resolver::with_servers(vec![[1, 1, 1, 1]]);
    res.next_server();
    assert_eq!(res.on_response(&resp), Ok(None));
    assert_eq!(res.ns_names, vec!["ns1.abc".to_string()]);
    assert_eq!(res.next_server(), None);
    match res.outcome() {
        Resolution::Delegated(names) => assert_eq!(names, vec!["ns1.abc".to_string()]),
        _ => panic!("expected delegate names"),
    }
}

#[test]
fn unusable_additionals_fall_back_to_authority() {
    let mut resp = header(0, 1, 1);
    ns_record(&mut resp);
    // an IPv6 address record gives no usable IPv4 address
    resp.extend_from_slice(&[0xc0, 0x0c, 0, 28, 0, 1, 0, 0, 0, 60, 0, 16]);
    resp.extend_from_slice(&[0u8; 16]);
    let mut res = Resolver::with_servers(vec![[1, 1, 1, 1]]);
    res.next_server();
    assert_eq!(res.on_response(&resp), Ok(None));
    assert_eq!(res.frontier, vec![[1, 1, 1, 1]]);
    assert_eq!(res.ns_names, vec!["ns1.abc".to_string()]);
}

#[test]
fn non_ns_authority_records_give_no_names() {
    let mut resp = header(0, 1, 0);
    resp.extend_from_slice(&[3, b'o', b'r', b'g', 0, 0, 6, 0, 1, 0, 0, 0, 60, 0, 1, 0]);
    let mut res = Resolver::with_servers(vec![[1, 1, 1, 1]]);
    res.next_server();
    assert_eq!(res.on_response(&resp), Ok(None));
    assert!(res.ns_names.is_empty());
    assert!(matches!(res.outcome(), Resolution::Unresolved));
}

#[test]
fn undecodable_delegate_name_is_reported() {
    let mut resp = header(0, 1, 0);
    // NS data that is a forward pointer
    resp.extend_from_slice(&[3, b'o', b'r', b'g', 0, 0, 2, 0, 1, 0, 0, 0, 60, 0, 2, 0xc0, 0x30]);
    let mut res = Resolver::with_servers(vec![[1, 1, 1, 1]]);
    res.next_server();
    assert!(res.on_response(&resp).is_err());
    assert!(res.ns_names.is_empty());
}
