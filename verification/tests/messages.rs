use dns_forwarder::addr::{ClientSubnet, IpAddr, Ipv4Addr};
use dns_forwarder::answers::{analyze_response, Response};
use dns_forwarder::chase::{build_cname_chase_response, chase_response};
use dns_forwarder::config::CacheConfig;
use dns_forwarder::dns::{
    build_a_response, build_empty_response, build_nxdomain_response, build_query,
    check_questions_fit, skip_question_section, QueryInfo,
};
use dns_forwarder::lifetime::cap_response_ttl;
use dns_forwarder::wire::{read_domain_name, u16_be, DnsError};

fn question(name: &str, qtype: u16) -> QueryInfo {
    QueryInfo { qname: name.to_string(), qtype, qclass: 1 }
}

fn record(owner: &[u8], rtype: u16, ttl: u32, rdata: &[u8]) -> Vec<u8> {
    let mut out: Vec<u8> = owner.to_vec();
    out.extend(rtype.to_be_bytes());
    out.extend(1u16.to_be_bytes());
    out.extend(ttl.to_be_bytes());
    out.extend((rdata.len() as u16).to_be_bytes());
    out.extend(rdata);
    out
}

fn response(name: &str, answers: &[Vec<u8>]) -> Vec<u8> {
    let mut out: Vec<u8> = build_query(0x0102, &question(name, 1));
    out[2] = 0x81;
    out[3] = 0x80;
    out[7] = answers.len() as u8;
    for a in answers {
        out.extend(a);
    }
    out
}

fn cache() -> CacheConfig {
    CacheConfig { max_entries: 10, min_ttl: 60, max_ttl: 3600 }
}

#[test]
fn a_query_is_built_byte_by_byte() {
    let q: Vec<u8> = build_query(0xABCD, &question("a.bc", 28));
    assert_eq!(
        q,
        b"\xAB\xCD\x01\x00\x00\x01\x00\x00\x00\x00\x00\x00\x01a\x02bc\x00\x00\x1C\x00\x01".to_vec()
    );
}

#[test]
fn a_query_reads_back() {
    let info: QueryInfo = QueryInfo::parse(&build_query(7, &question("www.example.com", 28))).unwrap();
    assert_eq!(info.qname, "www.example.com");
    assert_eq!(info.qtype, 28);
    assert_eq!(info.qclass, 1);
    let other: QueryInfo = info.new_qname("other.org");
    assert_eq!(other.qname, "other.org");
    assert_eq!((other.qtype, other.qclass), (28, 1));
}

#[test]
fn a_client_subnet_is_appended() {
    let ip: IpAddr = IpAddr::V4(Ipv4Addr { bits: 0x0102_FFFF });
    let plain: Vec<u8> = build_query(1, &question("a.b", 1));
    let q: Vec<u8> = question("a.b", 1).build(1, Some(ClientSubnet { ip, prefix_len: 23 }));
    assert_eq!(u16_be(&q, 10), 1);
    assert_eq!(q[12..plain.len()], plain[12..]);
    assert_eq!(
        q[plain.len()..],
        *b"\x00\x00\x29\x10\x00\x00\x00\x00\x00\x00\x0B\x00\x08\x00\x07\x00\x01\x17\x00\x01\x02\xFE"
    );
    assert_eq!(QueryInfo::parse(&q).unwrap().qname, "a.b");
}

#[test]
fn a_client_subnet_discloses_its_prefix_alone() {
    let ip: IpAddr = IpAddr::V4(Ipv4Addr { bits: 0x0102_0304 });
    let plain: usize = build_query(1, &question("a.b", 1)).len();
    let none: Vec<u8> = question("a.b", 1).build(1, Some(ClientSubnet { ip, prefix_len: 0 }));
    assert_eq!(none[plain + 9..], *b"\x00\x08\x00\x08\x00\x04\x00\x01\x00\x00");
    let all: Vec<u8> = question("a.b", 1).build(1, Some(ClientSubnet { ip, prefix_len: 32 }));
    assert_eq!(all[all.len() - 6..], [32, 0, 1, 2, 3, 4]);
    let v6: IpAddr = IpAddr::V6([0x20, 1, 0xFF, 0, 0, 0, 0, 0, 0, 0, 0, 0, 0, 0, 0, 1]);
    let some: Vec<u8> = question("a.b", 1).build(1, Some(ClientSubnet { ip: v6, prefix_len: 20 }));
    assert_eq!(some[some.len() - 7..], [0, 2, 20, 0, 0x20, 1, 0xF0]);
}

#[test]
fn a_query_that_cannot_be_read_is_refused() {
    let q: Vec<u8> = build_query(1, &question("a.b", 1));
    assert_eq!(QueryInfo::parse(&q[..11]).err(), Some(DnsError::QueryTooShort));
    assert_eq!(QueryInfo::parse(&q[..q.len() - 1]).err(), Some(DnsError::QueryTruncated));
    assert_eq!(QueryInfo::parse(&q[..13]).err(), Some(DnsError::LabelPastEnd));
}

#[test]
fn questions_are_skipped() {
    let q: Vec<u8> = build_query(1, &question("a.b", 1));
    assert_eq!(skip_question_section(&q), Ok(q.len() as u128));
    assert!(check_questions_fit(&q));
    assert!(check_questions_fit(&q[..3]));
    assert!(!check_questions_fit(&q[..q.len() - 1]));
    let mut two: Vec<u8> = q.clone();
    two[5] = 2;
    assert_eq!(skip_question_section(&two), Err(DnsError::NamePastEnd));
    assert!(check_questions_fit(&two));
}

#[test]
fn a_blocked_name_does_not_exist() {
    let q: Vec<u8> = build_query(0x1234, &question("ads.lan", 1));
    let r: Vec<u8> = build_nxdomain_response(&q).unwrap();
    assert_eq!(r[..12], *b"\x12\x34\x81\x83\x00\x01\x00\x00\x00\x00\x00\x00");
    assert_eq!(r[12..], q[12..]);
    assert_eq!(build_nxdomain_response(&q[..5]).err(), Some(DnsError::QueryTooShort));
}

#[test]
fn an_empty_reply_has_no_error() {
    let mut q: Vec<u8> = build_query(0x1234, &question("a.b", 28));
    q[2] = 0;
    let r: Vec<u8> = build_empty_response(&q).unwrap();
    assert_eq!(r[..12], *b"\x12\x34\x80\x80\x00\x01\x00\x00\x00\x00\x00\x00");
    assert_eq!(r[12..], q[12..]);
    let mut two: Vec<u8> = q.clone();
    two[5] = 2;
    assert_eq!(build_empty_response(&two).err(), Some(DnsError::NamePastEnd));
}

#[test]
fn a_local_name_has_its_address() {
    let q: Vec<u8> = build_query(0x1234, &question("router.lan", 1));
    let r: Vec<u8> = build_a_response(&q, &[192, 168, 1, 1]).unwrap();
    assert_eq!(r[..12], *b"\x12\x34\x81\x80\x00\x01\x00\x01\x00\x00\x00\x00");
    assert_eq!(r[12..q.len()], q[12..]);
    assert_eq!(
        r[q.len()..],
        *b"\xC0\x0C\x00\x01\x00\x01\x00\x00\x00\x3C\x00\x04\xC0\xA8\x01\x01"
    );
    let (answer, ttl) = analyze_response(&r, &cache()).unwrap();
    assert_eq!(ttl, 60);
    match answer {
        Response::A(ips) => assert_eq!(ips, vec![Ipv4Addr { bits: 0xC0A8_0101 }]),
        _ => panic!("no address"),
    }
    assert_eq!(build_a_response(&q[..0], &[0; 4]).err(), Some(DnsError::QueryTooShort));
}

#[test]
fn the_longest_lifetime_counts_within_its_bounds() {
    let r: Vec<u8> = response(
        "a.b",
        &[record(b"\xC0\x0C", 1, 100, &[1, 2, 3, 4]), record(b"\xC0\x0C", 1, 300, &[5, 6, 7, 8])],
    );
    let (answer, ttl) = analyze_response(&r, &cache()).unwrap();
    assert_eq!(ttl, 300);
    match answer {
        Response::A(ips) => {
            assert_eq!(ips, vec![Ipv4Addr { bits: 0x0102_0304 }, Ipv4Addr { bits: 0x0506_0708 }])
        }
        _ => panic!("no addresses"),
    }
    let short: Vec<u8> = response("a.b", &[record(b"\xC0\x0C", 1, 5, &[1, 2, 3, 4])]);
    assert_eq!(analyze_response(&short, &cache()).unwrap().1, 60);
    let long: Vec<u8> = response("a.b", &[record(b"\xC0\x0C", 1, 90000, &[1, 2, 3, 4])]);
    assert_eq!(analyze_response(&long, &cache()).unwrap().1, 3600);
}

#[test]
fn an_ipv6_address_counts_before_others() {
    let r: Vec<u8> = response(
        "a.b",
        &[record(b"\xC0\x0C", 1, 100, &[1, 2, 3, 4]), record(b"\xC0\x0C", 28, 100, &[0; 16])],
    );
    assert!(matches!(analyze_response(&r, &cache()), Ok((Response::Aaaa, 100))));
}

#[test]
fn the_first_alias_counts_without_an_address() {
    let r: Vec<u8> = response(
        "a.b",
        &[
            record(b"\xC0\x0C", 5, 100, b"\x01x\xC0\x0E"),
            record(b"\xC0\x0C", 5, 100, b"\x01y\x00"),
        ],
    );
    match analyze_response(&r, &cache()).unwrap() {
        (Response::Cname(target), 100) => assert_eq!(target, "x.b"),
        _ => panic!("no alias"),
    }
    let none: Vec<u8> = response("a.b", &[]);
    match analyze_response(&none, &cache()).unwrap() {
        (Response::A(ips), 60) => assert!(ips.is_empty()),
        _ => panic!("an answer"),
    }
}

#[test]
fn a_response_that_cannot_be_read_is_refused() {
    let r: Vec<u8> = response("a.b", &[record(b"\xC0\x0C", 1, 100, &[1, 2, 3, 4])]);
    assert_eq!(analyze_response(&r[..11], &cache()).err(), Some(DnsError::ResponseTooShort));
    assert_eq!(
        analyze_response(&r[..r.len() - 5], &cache()).err(),
        Some(DnsError::AnswerTruncated)
    );
    let loose: Vec<u8> = response("a.b", &[record(b"\xC0\x0C", 5, 100, b"\x09x")]);
    assert_eq!(analyze_response(&loose, &cache()).err(), Some(DnsError::LabelPastEnd));
}

#[test]
fn lifetimes_are_replaced() {
    let answers: [Vec<u8>; 2] =
        [record(b"\xC0\x0C", 1, 100, &[1, 2, 3, 4]), record(b"\x01x\x00", 5, 7, b"\x01y\x00")];
    let mut r: Vec<u8> = response("a.b", &answers);
    assert_eq!(cap_response_ttl(&mut r, 42), Ok(()));
    let wanted: Vec<u8> = response(
        "a.b",
        &[record(b"\xC0\x0C", 1, 42, &[1, 2, 3, 4]), record(b"\x01x\x00", 5, 42, b"\x01y\x00")],
    );
    assert_eq!(r, wanted);
    assert_eq!(cap_response_ttl(&mut r, 9), Ok(()));
    assert_eq!(analyze_response(&r, &CacheConfig { max_entries: 1, min_ttl: 0, max_ttl: 99 }).unwrap().1, 9);
    assert_eq!(cap_response_ttl(&mut r[..11], 9), Err(DnsError::ResponseTooShort));
    let mut cut: Vec<u8> = response("a.b", &answers);
    let end: usize = cut.len() - 9;
    assert_eq!(cap_response_ttl(&mut cut[..end], 9), Err(DnsError::AnswerTruncated));
}

#[test]
fn a_chase_holds_the_chain_and_the_last_answers() {
    let query: Vec<u8> = build_query(0x5555, &question("www.a.b", 1));
    let source: Vec<u8> = response("z.c", &[record(b"\xC0\x0C", 1, 500, &[1, 2, 3, 4])]);
    let chain: Vec<(String, u32)> = vec![("y.b".to_string(), 70), ("z.c".to_string(), 80)];
    let (answer, ttl) = analyze_response(&source, &cache()).unwrap();
    let r: Vec<u8> = build_cname_chase_response(&query, &chain, &source, &answer, ttl).unwrap();
    let mut wanted: Vec<u8> = b"\x55\x55\x81\x80\x00\x01\x00\x03\x00\x00\x00\x00".to_vec();
    wanted.extend(&query[12..]);
    wanted.extend(record(b"\x03www\x01a\x01b\x00", 5, 70, b"\x01y\x01b\x00"));
    wanted.extend(record(b"\x01y\x01b\x00", 5, 80, b"\x01z\x01c\x00"));
    wanted.extend(record(b"\x01z\x01c\x00", 1, 500, &[1, 2, 3, 4]));
    assert_eq!(r, wanted);
    match analyze_response(&r, &cache()).unwrap() {
        (Response::A(ips), 500) => assert_eq!(ips, vec![Ipv4Addr { bits: 0x0102_0304 }]),
        _ => panic!("another answer"),
    }
    let (owner, _) = read_domain_name(&r, query.len()).unwrap();
    assert_eq!(owner, "www.a.b");
}

#[test]
fn a_chase_copies_the_other_sections() {
    let query: Vec<u8> = build_query(1, &question("q.r", 1));
    let mut source: Vec<u8> = response("z.c", &[record(b"\xC0\x0C", 1, 500, &[1, 2, 3, 4])]);
    source[3] = 0x85;
    source[9] = 1;
    source[11] = 1;
    source.extend(record(b"\xC0\x0E", 2, 9, b"\x01n\x00"));
    source.extend(record(b"\x00", 41, 0, &[]));
    let chain: Vec<(String, u32)> = vec![("z.c".to_string(), 80)];
    let (answer, ttl) = analyze_response(&source, &cache()).unwrap();
    let r: Vec<u8> = build_cname_chase_response(&query, &chain, &source, &answer, ttl).unwrap();
    assert_eq!(r[..12], *b"\x00\x01\x81\x85\x00\x01\x00\x02\x00\x01\x00\x01");
    let mut tail: Vec<u8> = record(b"\x01c\x00", 2, 9, b"\x01n\x00");
    tail.extend(record(b"\x00", 41, 0, &[]));
    assert!(r.ends_with(&tail));
}

#[test]
fn a_chase_writes_addresses_where_there_are_no_answers() {
    let query: Vec<u8> = build_query(1, &question("q.r", 1));
    let source: Vec<u8> = response("z.c", &[]);
    let chain: Vec<(String, u32)> = vec![("z.c".to_string(), 80)];
    let answer: Response = Response::A(vec![Ipv4Addr { bits: 0x0909_0909 }]);
    let r: Vec<u8> = build_cname_chase_response(&query, &chain, &source, &answer, 33).unwrap();
    assert_eq!(u16_be(&r, 6), 2);
    assert!(r.ends_with(&record(b"\x01z\x01c\x00", 1, 33, &[9, 9, 9, 9])));
}

#[test]
fn a_chase_that_cannot_be_built_is_refused() {
    let query: Vec<u8> = build_query(1, &question("q.r", 1));
    let source: Vec<u8> = response("z.c", &[record(b"\xC0\x0C", 1, 500, &[1, 2, 3, 4])]);
    let chain: Vec<(String, u32)> = vec![("z.c".to_string(), 80)];
    let (answer, ttl) = analyze_response(&source, &cache()).unwrap();
    assert_eq!(
        chase_response(&query[..9], &chain, &source, &answer, ttl),
        Some(Err(DnsError::QueryTooShort))
    );
    assert_eq!(chase_response(&query[..query.len() - 1], &chain, &source, &answer, ttl), None);
    assert_eq!(chase_response(&query, &chain, &source[..9], &answer, ttl), None);
    assert_eq!(
        chase_response(&query, &chain, &source[..source.len() - 5], &answer, ttl),
        None
    );
    assert_eq!(
        chase_response(&query, &chain, &source[..source.len() - 1], &answer, ttl),
        Some(Err(DnsError::RdataTruncated))
    );
    let mut more: Vec<u8> = source.clone();
    more[11] = 1;
    more.extend(b"\x00\x00\x29");
    assert_eq!(
        chase_response(&query, &chain, &more, &answer, ttl),
        Some(Err(DnsError::RecordTruncated))
    );
}

#[test]
fn a_copied_alias_is_written_out() {
    let query: Vec<u8> = build_query(1, &question("q.r", 1));
    let mut source: Vec<u8> = response(
        "z.c",
        &[
            record(b"\xC0\x0C", 5, 90, b"\x01w\xC0\x0E"),
            record(b"\x01w\x01c\x00", 1, 500, &[1, 2, 3, 4]),
        ],
    );
    source[11] = 1;
    source.extend(record(b"\x01v\xC0\x0E", 5, 8, b"\xC0\x0C"));
    let chain: Vec<(String, u32)> = vec![("z.c".to_string(), 80)];
    let (answer, ttl) = analyze_response(&source, &cache()).unwrap();
    let r: Vec<u8> = build_cname_chase_response(&query, &chain, &source, &answer, ttl).unwrap();
    let mut wanted: Vec<u8> = query.clone();
    wanted[2] = 0x81;
    wanted[3] = 0x80;
    wanted[7] = 3;
    wanted[11] = 1;
    wanted.extend(record(b"\x01q\x01r\x00", 5, 80, b"\x01z\x01c\x00"));
    let copied: usize = wanted.len();
    wanted.extend(record(b"\x01z\x01c\x00", 5, 90, b"\x01w\x01c\x00"));
    wanted.extend(record(b"\x01w\x01c\x00", 1, 500, &[1, 2, 3, 4]));
    wanted.extend(record(b"\x01v\x01c\x00", 5, 8, b"\x01z\x01c\x00"));
    assert_eq!(r, wanted);
    let (_, fixed) = read_domain_name(&r, copied).unwrap();
    let (_, from) = read_domain_name(&source, skip_question_section(&source).unwrap() as usize)
        .unwrap();
    assert_eq!(
        read_domain_name(&r, fixed + 10).unwrap().0,
        read_domain_name(&source, from + 10).unwrap().0
    );
    match analyze_response(&r, &cache()).unwrap() {
        (Response::A(ips), 500) => assert_eq!(ips, vec![Ipv4Addr { bits: 0x0102_0304 }]),
        _ => panic!("another answer"),
    }
}

#[test]
fn other_alias_data_is_kept() {
    let query: Vec<u8> = build_query(1, &question("q.r", 1));
    let chain: Vec<(String, u32)> = vec![("z.c".to_string(), 80)];
    let kept: [&[u8]; 6] = [
        b"\xFF\xFF",
        b"\x02\xFF\xFE\x00",
        b"\x03a.b\x00",
        b"\x01w\x00\x09\x09",
        b"\x01w",
        b"",
    ];
    for data in kept {
        let mut source: Vec<u8> =
            response("z.c", &[record(b"\xC0\x0C", 1, 500, &[1, 2, 3, 4])]);
        source[9] = 1;
        source.extend(record(b"\xC0\x0C", 5, 9, data));
        let (answer, ttl) = analyze_response(&source, &cache()).unwrap();
        let r: Vec<u8> =
            build_cname_chase_response(&query, &chain, &source, &answer, ttl).unwrap();
        assert!(r.ends_with(&record(b"\x01z\x01c\x00", 5, 9, data)));
        if !data.is_empty() {
            let end: usize = source.len() - 1;
            assert_eq!(
                chase_response(&query, &chain, &source[..end], &answer, ttl),
                Some(Err(DnsError::RdataTruncated))
            );
        }
    }
}

#[test]
fn what_stands_behind_a_target_is_kept() {
    let query: Vec<u8> = build_query(1, &question("q.r", 1));
    let chain: Vec<(String, u32)> = vec![("z.c".to_string(), 80)];
    let mut source: Vec<u8> = response(
        "z.c",
        &[
            record(b"\xC0\x0C", 1, 500, &[1, 2, 3, 4]),
            record(b"\xC0\x0C", 5, 9, b"\xC0\x0E\x07\x08"),
        ],
    );
    source[11] = 1;
    source.extend(record(b"\x00", 28, 4, &[7; 16]));
    let (answer, ttl) = analyze_response(&source, &cache()).unwrap();
    let r: Vec<u8> = build_cname_chase_response(&query, &chain, &source, &answer, ttl).unwrap();
    let mut tail: Vec<u8> = record(b"\x01z\x01c\x00", 5, 9, b"\x01c\x00\x07\x08");
    tail.extend(record(b"\x00", 28, 4, &[7; 16]));
    assert!(r.ends_with(&tail));
}

#[test]
fn a_chase_without_an_address_can_be_capped() {
    let query: Vec<u8> = build_query(1, &question("q.r", 1));
    let source: Vec<u8> = response("z.c", &[record(b"\xC0\x0C", 16, 30, b"\x01t")]);
    let chain: Vec<(String, u32)> = vec![("z.c".to_string(), 80)];
    let (answer, ttl) = analyze_response(&source, &cache()).unwrap();
    assert!(matches!(&answer, Response::A(ips) if ips.is_empty()));
    let mut r: Vec<u8> =
        build_cname_chase_response(&query, &chain, &source, &answer, ttl).unwrap();
    assert!(matches!(analyze_response(&r, &cache()), Ok((Response::Cname(t), 80)) if t == "z.c"));
    assert_eq!(cap_response_ttl(&mut r, 7), Ok(()));
    let mut tail: Vec<u8> = record(b"\x01q\x01r\x00", 5, 7, b"\x01z\x01c\x00");
    tail.extend(record(b"\x01z\x01c\x00", 16, 7, b"\x01t"));
    assert!(r.ends_with(&tail));
}
