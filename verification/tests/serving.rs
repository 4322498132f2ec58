use dns_forwarder::addr::{IpAddr, Ipv4Addr, SocketAddr};
use dns_forwarder::cache::{to_ascii_lowercase, Cache};
use dns_forwarder::config::{RawConfig, RuleConfig, RuleKind, Surroundings};
use dns_forwarder::dns::{build_query, QueryInfo};
use dns_forwarder::extra_domain::ExtraDomains;
use dns_forwarder::forwarder::{
    bind_address, conclude, stamp, ForwardError, Forwarders, Identifiers, ReceiverAction,
    ReceiverEvent, Sent, Waiters,
};
use dns_forwarder::rules::Config;
use dns_forwarder::server::{
    ask, ask_server, decide, finish, nft_update, take_response, Answered, Decision, Outcome,
    Pending, ServerError,
};
use dns_forwarder::wire::{u16_be, DnsError};

const SECOND: u64 = 1_000_000_000;

fn v4(bits: u32) -> IpAddr {
    IpAddr::V4(Ipv4Addr { bits })
}

fn question(name: &str, qtype: u16) -> QueryInfo {
    QueryInfo { qname: name.to_string(), qtype, qclass: 1 }
}

fn config() -> Config {
    let mut env: Surroundings = Surroundings::new();
    env.add_socket("127.0.0.1:5354", SocketAddr::new(v4(0x7F00_0001), 5354));
    env.add_address("8.8.8.8", v4(0x0808_0808));
    env.add_address("8.8.4.4", v4(0x0808_0404));
    env.add_address("1.1.1.1", v4(0x0101_0101));
    env.add_address("1.2.3.4", v4(0x0102_0304));
    env.add_file("gfw.txt", "google.com\n".to_string());
    env.add_file("ads.txt", "ads.com\n".to_string());
    env.add_file("local.txt", "router.lan = 192.168.1.1\n".to_string());
    let raw: RawConfig = RawConfig {
        listen: "127.0.0.1:5354".to_string(),
        default_server: vec!["8.8.8.8".to_string(), "8.8.4.4".to_string()],
        rules: vec![
            RuleConfig {
                name: None,
                domain_files: vec!["ads.txt".to_string()],
                edns_client_subnet: None,
                kind: RuleKind::Block,
            },
            RuleConfig {
                name: None,
                domain_files: vec!["local.txt".to_string()],
                edns_client_subnet: None,
                kind: RuleKind::Local,
            },
            RuleConfig {
                name: None,
                domain_files: vec!["gfw.txt".to_string()],
                edns_client_subnet: Some("1.2.3.4/24".to_string()),
                kind: RuleKind::Forward {
                    upstreams: vec!["1.1.1.1".to_string()],
                    block_aaaa: true,
                    nft_set: Some("inet fw xip".to_string()),
                },
            },
        ],
        cache: None,
        edns_client_subnet: None,
    };
    Config::build(&env, &raw).ok().unwrap()
}

fn record(owner: &[u8], rtype: u16, ttl: u32, rdata: &[u8]) -> Vec<u8> {
    let mut out: Vec<u8> = owner.to_vec();
    out.extend(rtype.to_be_bytes());
    out.extend(1u16.to_be_bytes());
    out.extend(ttl.to_be_bytes());
    out.extend((rdata.len() as u16).to_be_bytes());
    out.extend(rdata);
    out
}

fn response(name: &str, answers: &[Vec<u8>]) -> Vec<u8> {
    let mut out: Vec<u8> = build_query(0x0102, &question(name, 1));
    out[2] = 0x81;
    out[3] = 0x80;
    out[7] = answers.len() as u8;
    for a in answers {
        out.extend(a);
    }
    out
}

fn resolve(decision: Decision) -> Pending {
    match decision {
        Decision::Resolve(pending) => pending,
        Decision::Reply(_) => panic!("a reply"),
        Decision::Fail(e) => panic!("{e:?}"),
    }
}

fn reply(decision: Decision) -> Vec<u8> {
    match decision {
        Decision::Reply(bytes) => bytes,
        Decision::Resolve(_) => panic!("no reply"),
        Decision::Fail(e) => panic!("{e:?}"),
    }
}

fn done(outcome: Outcome) -> Answered {
    match outcome {
        Outcome::Done(answered) => answered,
        Outcome::Follow(_) => panic!("an alias"),
        Outcome::Fail(e) => panic!("{e:?}"),
    }
}

fn follow(outcome: Outcome) -> Pending {
    match outcome {
        Outcome::Follow(pending) => pending,
        Outcome::Done(_) => panic!("no alias"),
        Outcome::Fail(e) => panic!("{e:?}"),
    }
}

#[test]
fn letters_are_lowered() {
    assert_eq!(to_ascii_lowercase("WWW.Example.COM[\u{c4}"), "www.example.com[\u{c4}");
}

#[test]
fn a_response_is_kept_until_it_expires() {
    let mut cache: Cache = Cache::init(2);
    let q: QueryInfo = question("Example.com", 1);
    assert_eq!(cache.get(&q, 0), None);
    cache.insert(&q, vec![1, 2, 3], 100, 10 * SECOND);
    assert_eq!(cache.get(&q, 10 * SECOND), Some((vec![1, 2, 3], 100)));
    assert_eq!(cache.get(&question("eXAMPLE.com", 1), 11 * SECOND + 1), Some((vec![1, 2, 3], 98)));
    assert_eq!(cache.get(&question("example.com", 28), 11 * SECOND), None);
    assert_eq!(cache.get(&q, 110 * SECOND - 1), Some((vec![1, 2, 3], 0)));
    assert_eq!(cache.get(&q, 110 * SECOND), None);
    assert_eq!(cache.get(&q, 10 * SECOND), None);
}

#[test]
fn the_least_recently_used_response_makes_room() {
    let mut cache: Cache = Cache::init(2);
    let a: QueryInfo = question("a", 1);
    let b: QueryInfo = question("b", 1);
    let c: QueryInfo = question("c", 1);
    cache.insert(&a, vec![1], 100, 0);
    cache.insert(&b, vec![2], 100, 0);
    assert_eq!(cache.get(&a, 0), Some((vec![1], 100)));
    cache.insert(&c, vec![3], 100, 0);
    assert_eq!(cache.get(&b, 0), None);
    assert_eq!(cache.get(&a, 0), Some((vec![1], 100)));
    assert_eq!(cache.get(&c, 0), Some((vec![3], 100)));
    cache.insert(&a, vec![4], 100, 0);
    cache.insert(&b, vec![5], 100, 0);
    assert_eq!(cache.get(&c, 0), None);
    assert_eq!(cache.get(&a, 0), Some((vec![4], 100)));
    assert_eq!(cache.get(&b, 0), Some((vec![5], 100)));
}

#[test]
fn without_a_hit_the_first_response_makes_room() {
    let mut cache: Cache = Cache::init(2);
    let a: QueryInfo = question("a", 1);
    let b: QueryInfo = question("b", 1);
    cache.insert(&a, vec![1], 100, 0);
    cache.insert(&b, vec![2], 100, 0);
    cache.insert(&question("c", 1), vec![3], 100, 0);
    assert_eq!(cache.get(&a, 0), None);
    assert_eq!(cache.get(&b, 0), Some((vec![2], 100)));
}

#[test]
fn an_expired_response_leaves_room() {
    let mut cache: Cache = Cache::init(2);
    let a: QueryInfo = question("a", 1);
    let b: QueryInfo = question("b", 1);
    cache.insert(&a, vec![1], 100, 0);
    cache.insert(&b, vec![2], 1, 0);
    assert_eq!(cache.get(&b, 2 * SECOND), None);
    cache.insert(&question("c", 1), vec![3], 100, 0);
    assert_eq!(cache.get(&a, 0), Some((vec![1], 100)));
}

#[test]
fn an_identifier_is_put_on_a_query() {
    assert_eq!(stamp(vec![1, 2, 3], 0xABCD), Ok(vec![0xAB, 0xCD, 3]));
    assert_eq!(stamp(vec![1], 0xABCD), Err(ForwardError::QueryTooShort));
}

#[test]
fn queries_are_numbered() {
    let mut ids: Identifiers = Identifiers::new();
    assert_eq!(ids.stamp_next(vec![9, 9, 7]), Ok((1, vec![0, 1, 7])));
    assert_eq!(ids.stamp_next(vec![9]), Err(ForwardError::QueryTooShort));
    assert_eq!(ids.stamp_next(vec![9, 9]), Ok((2, vec![0, 2])));
    for k in 3..=0xFFFFu16 {
        assert_eq!(ids.stamp_next(vec![0, 0]), Ok((k, k.to_be_bytes().to_vec())));
    }
    assert_eq!(ids.stamp_next(vec![1, 1, 1]), Ok((0, vec![0, 0, 1])));
    assert_eq!(ids.stamp_next(vec![1, 1, 1]), Ok((1, vec![0, 1, 1])));
}

#[test]
fn a_query_comes_to_its_end() {
    assert_eq!(conclude(Sent::Answered(vec![7])), (Ok(vec![7]), false));
    assert_eq!(conclude(Sent::NotRegistered), (Err(ForwardError::ReceiverClosed), false));
    assert_eq!(conclude(Sent::NotSent), (Err(ForwardError::SendFailed), true));
    assert_eq!(conclude(Sent::Dropped), (Err(ForwardError::Cancelled), false));
    assert_eq!(conclude(Sent::Late), (Err(ForwardError::TimedOut), true));
}

#[test]
fn a_response_reaches_its_waiter() {
    let mut waiters: Waiters<&str> = Waiters::new();
    assert!(matches!(waiters.step(ReceiverEvent::Register(0x0102, "a")), ReceiverAction::Continue));
    assert!(matches!(waiters.step(ReceiverEvent::Register(0x0304, "b")), ReceiverAction::Continue));
    assert!(matches!(
        waiters.step(ReceiverEvent::Register(0x0102, "c")),
        ReceiverAction::Displace("a")
    ));
    assert!(matches!(waiters.step(ReceiverEvent::Datagram(vec![1])), ReceiverAction::Continue));
    assert!(matches!(waiters.step(ReceiverEvent::Datagram(vec![9, 9])), ReceiverAction::Continue));
    match waiters.step(ReceiverEvent::Datagram(vec![1, 2, 5])) {
        ReceiverAction::Deliver(waiter, data) => {
            assert_eq!((waiter, data), ("c", vec![1, 2, 5]));
        }
        _ => panic!("not delivered"),
    }
    assert!(matches!(
        waiters.step(ReceiverEvent::Datagram(vec![1, 2, 5])),
        ReceiverAction::Continue
    ));
    assert!(matches!(waiters.step(ReceiverEvent::Cancel(0x0304)), ReceiverAction::Continue));
    assert!(matches!(
        waiters.step(ReceiverEvent::Datagram(vec![3, 4, 5])),
        ReceiverAction::Continue
    ));
}

#[test]
fn a_receiver_that_stops_drops_its_waiters() {
    let mut waiters: Waiters<u8> = Waiters::new();
    waiters.step(ReceiverEvent::Register(1, 7));
    assert!(matches!(waiters.step(ReceiverEvent::SocketError), ReceiverAction::Stop));
    assert!(matches!(waiters.step(ReceiverEvent::Datagram(vec![0, 1])), ReceiverAction::Continue));
    waiters.step(ReceiverEvent::Register(1, 7));
    assert!(matches!(waiters.step(ReceiverEvent::Closed), ReceiverAction::Stop));
    assert!(matches!(waiters.step(ReceiverEvent::Datagram(vec![0, 1])), ReceiverAction::Continue));
}

#[test]
fn a_socket_is_bound_to_the_family_of_its_upstream() {
    assert_eq!(
        bind_address(&SocketAddr::new(v4(5), 53)),
        SocketAddr::new(v4(0), 0)
    );
    assert_eq!(
        bind_address(&SocketAddr::new(IpAddr::V6([1; 16]), 53)),
        SocketAddr::new(IpAddr::V6([0; 16]), 0)
    );
}

#[test]
fn local_and_blocked_names_need_no_upstream() {
    let config: Config = config();
    let mut cache: Cache = Cache::init(10);
    let mut extra: ExtraDomains = ExtraDomains::init();
    let local: Vec<u8> = build_query(0x1234, &question("router.lan", 1));
    let r: Vec<u8> = reply(decide(&config, &mut cache, &mut extra, &local, 0));
    assert_eq!(r[..4], [0x12, 0x34, 0x81, 0x80]);
    assert!(r.ends_with(&[192, 168, 1, 1]));
    for name in ["x.ads.com", "printer.lan", "a.home.arpa"] {
        let blocked: Vec<u8> = build_query(0x1234, &question(name, 1));
        let r: Vec<u8> = reply(decide(&config, &mut cache, &mut extra, &blocked, 0));
        assert_eq!(r[..12], *b"\x12\x34\x81\x83\x00\x01\x00\x00\x00\x00\x00\x00");
    }
}

#[test]
fn a_query_that_cannot_be_used_gets_no_reply() {
    let config: Config = config();
    let mut cache: Cache = Cache::init(10);
    let mut extra: ExtraDomains = ExtraDomains::init();
    assert!(matches!(
        decide(&config, &mut cache, &mut extra, &[0; 5], 0),
        Decision::Fail(ServerError::Message(DnsError::QueryTooShort))
    ));
    let mut two: Vec<u8> = build_query(1, &question("router.lan", 1));
    two[5] = 2;
    two.push(0);
    assert!(matches!(
        decide(&config, &mut cache, &mut extra, &two, 0),
        Decision::Fail(ServerError::PastEnd)
    ));
    let mut other: Vec<u8> = build_query(1, &question("example.com", 1));
    other[5] = 2;
    other.push(0);
    resolve(decide(&config, &mut cache, &mut extra, &other, 0));
}

#[test]
fn blocked_ipv6_addresses_are_empty() {
    let config: Config = config();
    let mut cache: Cache = Cache::init(10);
    let mut extra: ExtraDomains = ExtraDomains::init();
    let q: Vec<u8> = build_query(0x1234, &question("www.google.com", 28));
    let r: Vec<u8> = reply(decide(&config, &mut cache, &mut extra, &q, 0));
    assert_eq!(r[..12], *b"\x12\x34\x81\x80\x00\x01\x00\x00\x00\x00\x00\x00");
    let open: Vec<u8> = build_query(0x1234, &question("example.com", 28));
    assert_eq!(resolve(decide(&config, &mut cache, &mut extra, &open, 0)).rule, None);
}

#[test]
fn a_query_is_resolved_and_kept() {
    let config: Config = config();
    let mut cache: Cache = Cache::init(10);
    let mut extra: ExtraDomains = ExtraDomains::init();
    let q: Vec<u8> = build_query(0xAAAA, &question("example.com", 1));
    let pending: Pending = resolve(decide(&config, &mut cache, &mut extra, &q, 0));
    assert_eq!(pending.rule, None);
    let (server, message) = ask(&config, &pending).ok().unwrap();
    assert!(config.default_server.contains(&server));
    assert_eq!(message[2..], build_query(0, &question("example.com", 1))[2..]);
    let upstream: Vec<u8> =
        response("example.com", &[record(b"\xC0\x0C", 1, 300, &[9, 9, 9, 9])]);
    let answered: Answered =
        done(take_response(&config, &mut extra, pending, upstream.clone(), 0));
    assert_eq!(answered.ttl, 300);
    assert!(nft_update(&config, &answered).is_none());
    let r: Vec<u8> = finish(&mut cache, &answered, 0);
    assert_eq!(u16_be(&r, 0), 0xAAAA);
    assert_eq!(r[2..], upstream[2..]);
    let again: Vec<u8> = build_query(0xBBBB, &question("EXAMPLE.com", 1));
    let kept: Vec<u8> = reply(decide(&config, &mut cache, &mut extra, &again, 100 * SECOND));
    assert_eq!(u16_be(&kept, 0), 0xBBBB);
    let mut wanted: Vec<u8> =
        response("example.com", &[record(b"\xC0\x0C", 1, 200, &[9, 9, 9, 9])]);
    wanted[0] = 0xBB;
    wanted[1] = 0xBB;
    assert_eq!(kept, wanted);
    resolve(decide(&config, &mut cache, &mut extra, &again, 300 * SECOND));
}

#[test]
fn a_random_upstream_is_asked() {
    let config: Config = config();
    let mut cache: Cache = Cache::init(10);
    let mut extra: ExtraDomains = ExtraDomains::init();
    let q: Vec<u8> = build_query(1, &question("example.com", 1));
    let pending: Pending = resolve(decide(&config, &mut cache, &mut extra, &q, 0));
    let mut seen: Vec<SocketAddr> = Vec::new();
    let mut ids: Vec<u16> = Vec::new();
    for _ in 0..200 {
        let (server, message) = ask(&config, &pending).ok().unwrap();
        if !seen.contains(&server) {
            seen.push(server);
        }
        let id: u16 = u16_be(&message, 0);
        if !ids.contains(&id) {
            ids.push(id);
        }
    }
    assert_eq!(seen.len(), 2);
    assert!(ids.len() > 1);
}

#[test]
fn a_rule_has_its_own_upstreams_and_subnet() {
    let config: Config = config();
    let mut cache: Cache = Cache::init(10);
    let mut extra: ExtraDomains = ExtraDomains::init();
    let q: Vec<u8> = build_query(1, &question("www.google.com", 1));
    let pending: Pending = resolve(decide(&config, &mut cache, &mut extra, &q, 0));
    assert_eq!(pending.rule, Some(0));
    let (server, message) = ask(&config, &pending).ok().unwrap();
    assert_eq!(server, SocketAddr::new(v4(0x0101_0101), 53));
    assert_eq!(u16_be(&message, 10), 1);
    assert!(message.ends_with(&[0, 8, 0, 7, 0, 1, 24, 0, 1, 2, 3]));
    let (to, same) = ask_server(&config, &pending, 0x7777, Some(server)).ok().unwrap();
    assert_eq!(to, server);
    assert_eq!(u16_be(&same, 0), 0x7777);
    assert_eq!(ask_server(&config, &pending, 1, None).err(), Some(ServerError::NoUpstream));
}

#[test]
fn an_alias_is_followed_and_learned() {
    let config: Config = config();
    let mut cache: Cache = Cache::init(10);
    let mut extra: ExtraDomains = ExtraDomains::init();
    let q: Vec<u8> = build_query(0x4242, &question("www.google.com", 1));
    let first: Pending = resolve(decide(&config, &mut cache, &mut extra, &q, 0));
    let alias: Vec<u8> =
        response("www.google.com", &[record(b"\xC0\x0C", 5, 70, b"\x03cdn\x03net\x00")]);
    let second: Pending = follow(take_response(&config, &mut extra, first, alias, SECOND));
    assert_eq!(second.current.qname, "cdn.net");
    assert_eq!(second.info.qname, "www.google.com");
    assert_eq!(second.depth, 1);
    assert_eq!(second.chain, vec![("cdn.net".to_string(), 70)]);
    let target: Vec<u8> = build_query(1, &question("cdn.net", 28));
    let blocked: Vec<u8> = reply(decide(&config, &mut cache, &mut extra, &target, 2 * SECOND));
    assert_eq!(blocked[3], 0x80);
    let last: Vec<u8> = response("cdn.net", &[record(b"\xC0\x0C", 1, 100, &[9, 9, 9, 9])]);
    let answered: Answered = done(take_response(&config, &mut extra, second, last, SECOND));
    let update = nft_update(&config, &answered).unwrap();
    assert_eq!(update.family, "inet");
    assert_eq!(update.table, "fw");
    assert_eq!(update.set, "xip");
    assert_eq!(update.elements, "{ 9.9.9.9 timeout 200s }");
    let r: Vec<u8> = finish(&mut cache, &answered, SECOND);
    let mut wanted: Vec<u8> = q.clone();
    wanted[2] = 0x81;
    wanted[3] = 0x80;
    wanted[7] = 2;
    wanted.extend(record(b"\x03www\x06google\x03com\x00", 5, 70, b"\x03cdn\x03net\x00"));
    wanted.extend(record(b"\x03cdn\x03net\x00", 1, 100, &[9, 9, 9, 9]));
    assert_eq!(r, wanted);
}

#[test]
fn a_chain_without_an_address_is_kept() {
    let config: Config = config();
    let mut cache: Cache = Cache::init(10);
    let mut extra: ExtraDomains = ExtraDomains::init();
    let q: Vec<u8> = build_query(0x4242, &question("a.b", 1));
    let first: Pending = resolve(decide(&config, &mut cache, &mut extra, &q, 0));
    let alias: Vec<u8> = response("a.b", &[record(b"\xC0\x0C", 5, 70, b"\x01c\x00")]);
    let second: Pending = follow(take_response(&config, &mut extra, first, alias, 0));
    let last: Vec<u8> = response("c", &[]);
    let answered: Answered = done(take_response(&config, &mut extra, second, last, 0));
    assert_eq!(answered.ttl, 60);
    let r: Vec<u8> = finish(&mut cache, &answered, 0);
    let mut wanted: Vec<u8> = q.clone();
    wanted[2] = 0x81;
    wanted[3] = 0x80;
    wanted[7] = 1;
    wanted.extend(record(b"\x01a\x01b\x00", 5, 70, b"\x01c\x00"));
    assert_eq!(r, wanted);
    let again: Vec<u8> = build_query(0x4343, &question("A.b", 1));
    let kept: Vec<u8> = reply(decide(&config, &mut cache, &mut extra, &again, 10 * SECOND));
    let mut later: Vec<u8> = q.clone();
    later[0] = 0x43;
    later[1] = 0x43;
    later[2] = 0x81;
    later[3] = 0x80;
    later[7] = 1;
    later.extend(record(b"\x01a\x01b\x00", 5, 50, b"\x01c\x00"));
    assert_eq!(kept, later);
}

#[test]
fn aliases_do_not_go_round() {
    let config: Config = config();
    let mut cache: Cache = Cache::init(10);
    let mut extra: ExtraDomains = ExtraDomains::init();
    let q: Vec<u8> = build_query(1, &question("a.org", 1));
    let first: Pending = resolve(decide(&config, &mut cache, &mut extra, &q, 0));
    let to_b: Vec<u8> = response("a.org", &[record(b"\xC0\x0C", 5, 70, b"\x01b\x00")]);
    let second: Pending = follow(take_response(&config, &mut extra, first, to_b.clone(), 0));
    assert!(matches!(
        take_response(&config, &mut extra, second, to_b, 0),
        Outcome::Fail(ServerError::AliasLoop)
    ));
    assert_eq!(extra.match_domain("b", 1), None);
}

#[test]
fn ten_aliases_are_followed() {
    let config: Config = config();
    let mut cache: Cache = Cache::init(10);
    let mut extra: ExtraDomains = ExtraDomains::init();
    let q: Vec<u8> = build_query(1, &question("a.org", 1));
    let mut pending: Pending = resolve(decide(&config, &mut cache, &mut extra, &q, 0));
    for i in 0..11u8 {
        assert!(ask(&config, &pending).is_ok());
        let next: Vec<u8> = response("x", &[record(b"\xC0\x0C", 5, 70, &[1, b'a' + i, 0])]);
        pending = follow(take_response(&config, &mut extra, pending, next, 0));
    }
    assert_eq!(pending.depth, 11);
    assert_eq!(ask(&config, &pending).err(), Some(ServerError::ChainTooLong));
}

#[test]
fn a_faulty_response_ends_a_resolution() {
    let config: Config = config();
    let mut cache: Cache = Cache::init(10);
    let mut extra: ExtraDomains = ExtraDomains::init();
    let q: Vec<u8> = build_query(1, &question("a.org", 1));
    let first: Pending = resolve(decide(&config, &mut cache, &mut extra, &q, 0));
    assert!(matches!(
        take_response(&config, &mut extra, first, vec![0; 3], 0),
        Outcome::Fail(ServerError::Message(DnsError::ResponseTooShort))
    ));
    let first: Pending = resolve(decide(&config, &mut cache, &mut extra, &q, 0));
    let alias: Vec<u8> = response("a.org", &[record(b"\xC0\x0C", 5, 70, b"\x01b\x00")]);
    let second: Pending = follow(take_response(&config, &mut extra, first, alias, 0));
    let mut cut: Vec<u8> = response("b", &[record(b"\xC0\x0C", 1, 70, &[1, 2, 3, 4])]);
    cut[9] = 1;
    cut.extend([0, 0, 0]);
    assert!(matches!(
        take_response(&config, &mut extra, second, cut, 0),
        Outcome::Fail(ServerError::PastEnd)
    ));
}

#[test]
fn an_upstream_has_one_socket() {
    let a: SocketAddr = SocketAddr::new(v4(1), 53);
    let b: SocketAddr = SocketAddr::new(IpAddr::V6([1; 16]), 53);
    let c: SocketAddr = SocketAddr::new(v4(1), 54);
    let mut open: Forwarders<&str> = Forwarders::new();
    assert_eq!(open.get(&a), None);
    assert!(open.open(a, 1, "first"));
    assert!(!open.open(a, 2, "second"));
    assert!(open.open(b, 3, "other"));
    assert_eq!(open.get(&a), Some(&"first"));
    assert_eq!(open.get(&b), Some(&"other"));
    assert_eq!(open.get(&c), None);
    open.close(&c, 1);
    open.close(&a, 2);
    assert_eq!(open.get(&a), Some(&"first"));
    open.close(&a, 1);
    assert_eq!(open.get(&a), None);
    assert!(open.open(a, 4, "newer"));
    open.close(&a, 1);
    assert_eq!(open.get(&a), Some(&"newer"));
    assert_eq!(open.get(&b), Some(&"other"));
}
