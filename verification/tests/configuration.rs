use dns_forwarder::addr::{ClientSubnet, IpAddr, Ipv4Addr, SocketAddr};
use dns_forwarder::config::{
    parse_client_subnet, parse_dns_server_addr, subnet_address, CacheConfig, RawConfig, RuleConfig,
    RuleKind, Surroundings,
};
use dns_forwarder::error::ConfigError;
use dns_forwarder::nft::{
    add_to_nft_set, family_to_nfproto, ipv4_prefix_to_range, listed_elements, parse_nft_elements,
    NftElement, NftSet, NftSetElem, NftSetInfo, NftablesItem,
};
use dns_forwarder::rules::{parse_nft_set, Config};

fn v4(bits: u32) -> IpAddr {
    IpAddr::V4(Ipv4Addr { bits })
}

fn env() -> Surroundings {
    let mut env: Surroundings = Surroundings::new();
    env.add_socket("127.0.0.1:5354", SocketAddr::new(v4(0x7F00_0001), 5354));
    env.add_address("8.8.8.8", v4(0x0808_0808));
    env.add_address("1.1.1.1", v4(0x0101_0101));
    env.add_address("1.2.3.4", v4(0x0102_0304));
    env.add_address("::1", IpAddr::V6([0, 0, 0, 0, 0, 0, 0, 0, 0, 0, 0, 0, 0, 0, 0, 1]));
    env.add_file("gfw.txt", "google.com\n# x\nyoutube.com\n".to_string());
    env.add_file("ads.txt", "ads.com\n".to_string());
    env.add_file("local.txt", "router.lan = 192.168.1.1\n".to_string());
    env.add_file("bad.txt", "router.lan\n".to_string());
    env
}

fn raw(rules: Vec<RuleConfig>) -> RawConfig {
    RawConfig {
        listen: "127.0.0.1:5354".to_string(),
        default_server: vec!["8.8.8.8".to_string()],
        rules,
        cache: None,
        edns_client_subnet: None,
    }
}

fn rule(file: &str, kind: RuleKind) -> RuleConfig {
    RuleConfig {
        name: Some("n".to_string()),
        domain_files: vec![file.to_string()],
        edns_client_subnet: None,
        kind,
    }
}

fn forward(upstream: &str, nft_set: Option<&str>) -> RuleKind {
    RuleKind::Forward {
        upstreams: vec![upstream.to_string()],
        block_aaaa: true,
        nft_set: nft_set.map(|s| s.to_string()),
    }
}

#[test]
fn lifetimes_are_bounded() {
    let cache: CacheConfig = CacheConfig::default();
    assert_eq!((cache.max_entries, cache.min_ttl, cache.max_ttl), (100_000, 60, 3600));
    assert_eq!(cache.normalize_ttl(0), 60);
    assert_eq!(cache.normalize_ttl(60), 60);
    assert_eq!(cache.normalize_ttl(100), 100);
    assert_eq!(cache.normalize_ttl(3600), 3600);
    assert_eq!(cache.normalize_ttl(90000), 3600);
    let odd: CacheConfig = CacheConfig { max_entries: 1, min_ttl: 10, max_ttl: 5 };
    assert_eq!(odd.normalize_ttl(7), 5);
    assert_eq!(odd.normalize_ttl(3), 10);
}

#[test]
fn a_server_has_a_port() {
    let env: Surroundings = env();
    assert_eq!(
        parse_dns_server_addr(&env, "127.0.0.1:5354"),
        Ok(SocketAddr::new(v4(0x7F00_0001), 5354))
    );
    assert_eq!(
        parse_dns_server_addr(&env, "8.8.8.8"),
        Ok(SocketAddr::new(v4(0x0808_0808), 53))
    );
    assert_eq!(
        parse_dns_server_addr(&env, "nowhere"),
        Err(ConfigError::InvalidServerAddress)
    );
}

#[test]
fn a_client_subnet_has_a_prefix() {
    let env: Surroundings = env();
    assert_eq!(subnet_address("1.2.3.4/23"), Some("1.2.3.4".to_string()));
    assert_eq!(subnet_address("1.2.3.4"), None);
    assert_eq!(
        parse_client_subnet(&env, "1.2.3.4/23"),
        Ok(ClientSubnet { ip: v4(0x0102_0304), prefix_len: 23 })
    );
    assert_eq!(
        parse_client_subnet(&env, "::1/128").map(|s| s.prefix_len),
        Ok(128)
    );
    assert_eq!(parse_client_subnet(&env, "1.2.3.4"), Err(ConfigError::SubnetWithoutPrefix));
    assert_eq!(parse_client_subnet(&env, "x/24"), Err(ConfigError::InvalidSubnetAddress));
    assert_eq!(parse_client_subnet(&env, "1.2.3.4/x"), Err(ConfigError::InvalidPrefixLength));
    assert_eq!(parse_client_subnet(&env, "1.2.3.4/24/1"), Err(ConfigError::InvalidPrefixLength));
    assert_eq!(parse_client_subnet(&env, "1.2.3.4/33"), Err(ConfigError::Ipv4PrefixTooLong));
    assert_eq!(parse_client_subnet(&env, "::1/129"), Err(ConfigError::Ipv6PrefixTooLong));
}

#[test]
fn a_configuration_is_built() {
    let mut env: Surroundings = env();
    env.add_listing(
        "inet fw xip",
        vec![NftElement { start: v4(1), end: v4(9) }],
    );
    let mut config: RawConfig = raw(vec![
        rule("ads.txt", RuleKind::Block),
        rule("gfw.txt", forward("1.1.1.1", Some("inet fw xip"))),
        rule("local.txt", RuleKind::Local),
        rule("ads.txt", RuleKind::Cname { cname_list: vec!["t".to_string()] }),
        rule("ads.txt", forward("127.0.0.1:5354", None)),
    ]);
    config.rules[1].edns_client_subnet = Some("1.2.3.4/24".to_string());
    config.edns_client_subnet = Some("1.2.3.4/8".to_string());
    let built: Config = Config::build(&env, &config).ok().unwrap();
    assert_eq!(built.listen.port, 5354);
    assert_eq!(built.default_server, vec![SocketAddr::new(v4(0x0808_0808), 53)]);
    assert_eq!(built.cache, CacheConfig::default());
    assert_eq!(built.edns_client_subnet.unwrap().prefix_len, 8);
    assert_eq!(built.forward_rules.len(), 2);
    let first = &built.forward_rules[0];
    assert_eq!(first.id, 1);
    assert_eq!(first.name.as_deref(), Some("n"));
    assert!(first.suffix_trie.get("www.google.com").is_some());
    assert!(first.suffix_trie.get("ads.com").is_none());
    assert_eq!(first.upstreams, vec![SocketAddr::new(v4(0x0101_0101), 53)]);
    assert!(first.block_aaaa);
    assert_eq!(first.edns_client_subnet.unwrap().prefix_len, 24);
    let set = first.nft_set.as_ref().unwrap();
    assert_eq!((set.family.as_str(), set.table.as_str(), set.set.as_str()), ("inet", "fw", "xip"));
    assert_eq!(set.existing_elements, vec![NftElement { start: v4(1), end: v4(9) }]);
    assert_eq!(built.forward_rules[1].id, 4);
    assert!(built.forward_rules[1].nft_set.is_none());
    assert_eq!(built.cname_rules.len(), 1);
    assert_eq!(built.cname_rules[0].cname_targets, vec!["t"]);
    assert!(built.cname_rules[0].suffix_trie.get("ads.com").is_some());
    assert_eq!(built.local_domains.get("router.lan"), Some(&Ipv4Addr { bits: 0xC0A8_0101 }));
    assert!(built.blocklist.get("x.ads.com").is_some());
}

#[test]
fn private_suffixes_are_blocked() {
    let built: Config = Config::build(&env(), &raw(Vec::new())).ok().unwrap();
    for name in ["lan", "a.lan", "x.local", "home.arpa", "a.b.home.arpa", "y.corp", "z.internal"] {
        assert!(built.blocklist.get(name).is_some(), "{name}");
    }
    for name in ["plan", "arpa", "example.com", "lan.com"] {
        assert!(built.blocklist.get(name).is_none(), "{name}");
    }
}

#[test]
fn a_faulty_configuration_is_refused() {
    let env: Surroundings = env();
    let mut listen: RawConfig = raw(Vec::new());
    listen.listen = "x".to_string();
    assert_eq!(Config::build(&env, &listen).err(), Some(ConfigError::InvalidServerAddress));
    let mut none: RawConfig = raw(Vec::new());
    none.default_server = Vec::new();
    assert_eq!(Config::build(&env, &none).err(), Some(ConfigError::NoDefaultServer));
    let mut subnet: RawConfig = raw(Vec::new());
    subnet.edns_client_subnet = Some("1.2.3.4".to_string());
    assert_eq!(Config::build(&env, &subnet).err(), Some(ConfigError::SubnetWithoutPrefix));
    let cases: Vec<(RuleConfig, ConfigError)> = vec![
        (rule("none.txt", RuleKind::Block), ConfigError::UnreadableDomainFile),
        (rule("none.txt", forward("x", None)), ConfigError::UnreadableDomainFile),
        (rule("bad.txt", RuleKind::Local), ConfigError::LocalDomainWithoutAddress),
        (rule("gfw.txt", forward("x", Some("y"))), ConfigError::InvalidServerAddress),
        (rule("gfw.txt", forward("1.1.1.1", Some("inet fw"))), ConfigError::InvalidNftSet),
        (rule("gfw.txt", forward("1.1.1.1", Some("arp a b"))), ConfigError::UnsupportedFamily),
        (
            rule(
                "gfw.txt",
                RuleKind::Forward { upstreams: Vec::new(), block_aaaa: false, nft_set: None },
            ),
            ConfigError::NoUpstream,
        ),
    ];
    for (faulty, error) in cases {
        let mut config: RawConfig = raw(vec![faulty]);
        config.edns_client_subnet = Some("?".to_string());
        assert_eq!(Config::build(&env, &config).err(), Some(error));
    }
}

#[test]
fn a_family_has_a_number() {
    assert_eq!(family_to_nfproto("ip"), Ok(2));
    assert_eq!(family_to_nfproto("ip6"), Ok(10));
    assert_eq!(family_to_nfproto("inet"), Ok(1));
    assert_eq!(family_to_nfproto("bridge"), Err(ConfigError::UnsupportedFamily));
    assert_eq!(
        parse_nft_set(" ip6  t\ts "),
        Ok(("ip6".to_string(), "t".to_string(), "s".to_string()))
    );
    assert_eq!(parse_nft_set("ip t s x"), Err(ConfigError::InvalidNftSet));
}

#[test]
fn a_prefix_is_a_range() {
    let ip: Ipv4Addr = Ipv4Addr { bits: 0x0A01_0203 };
    assert_eq!(ipv4_prefix_to_range(ip, 24), (ip, Ipv4Addr { bits: 0x0A01_02FF }));
    assert_eq!(ipv4_prefix_to_range(ip, 32), (ip, ip));
    assert_eq!(ipv4_prefix_to_range(ip, 1), (ip, Ipv4Addr { bits: 0x7FFF_FFFF }));
    assert_eq!(ipv4_prefix_to_range(ip, 9), (ip, Ipv4Addr { bits: 0x0A7F_FFFF }));
}

fn listing(set_type: &str, elem: Vec<NftSetElem>) -> NftablesItem {
    NftablesItem::ListedSet(NftSetInfo {
        family: "inet".to_string(),
        name: "xip".to_string(),
        table: "fw".to_string(),
        set_type: set_type.to_string(),
        elem,
    })
}

#[test]
fn a_listing_is_read() {
    let items: Vec<NftablesItem> = vec![
        NftablesItem::Other,
        listing(
            "ipv4_addr",
            vec![
                NftSetElem::Simple("1.1.1.1".to_string()),
                NftSetElem::Simple("::1".to_string()),
                NftSetElem::Prefixed { addr: "10.0.0.0".to_string(), len: 8 },
                NftSetElem::Prefixed { addr: "x".to_string(), len: 99 },
                NftSetElem::Ranged { start: "2.0.0.1".to_string(), end: "2.0.0.9".to_string() },
                NftSetElem::Ranged { start: "2.0.0.1".to_string(), end: "y".to_string() },
                NftSetElem::WithTimeout("3.3.3.3".to_string()),
            ],
        ),
        listing("ipv6_addr", vec![NftSetElem::Prefixed { addr: "4.4.4.4".to_string(), len: 0 }]),
        listing("ipv4_addr", vec![NftSetElem::Simple("5.5.5.5".to_string())]),
    ];
    assert_eq!(
        parse_nft_elements(&items),
        vec![
            NftElement { start: v4(0x0101_0101), end: v4(0x0101_0101) },
            NftElement { start: v4(0x0A00_0000), end: v4(0x0AFF_FFFF) },
            NftElement { start: v4(0x0200_0001), end: v4(0x0200_0009) },
            NftElement { start: v4(0x0303_0303), end: v4(0x0303_0303) },
        ]
    );
    let odd: Vec<NftablesItem> = vec![listing(
        "ipv4_addr",
        vec![NftSetElem::Prefixed { addr: "4.4.4.4".to_string(), len: 0 }],
    )];
    assert_eq!(listed_elements(&odd), None);
}

#[test]
fn new_addresses_are_added_with_a_timeout() {
    let set: NftSet = NftSet {
        family: "inet".to_string(),
        table: "fw".to_string(),
        set: "xip".to_string(),
        existing_elements: vec![NftElement { start: v4(0x0A00_0000), end: v4(0x0AFF_FFFF) }],
    };
    assert!(set.contains(&Ipv4Addr { bits: 0x0A00_0000 }));
    assert!(set.contains(&Ipv4Addr { bits: 0x0AFF_FFFF }));
    assert!(!set.contains(&Ipv4Addr { bits: 0x0B00_0000 }));
    let known: Ipv4Addr = Ipv4Addr { bits: 0x0A01_0203 };
    let one: Ipv4Addr = Ipv4Addr { bits: 0x0101_0101 };
    let two: Ipv4Addr = Ipv4Addr { bits: 0x0808_0808 };
    assert_eq!(add_to_nft_set(&set, &vec![known], 120), None);
    assert_eq!(add_to_nft_set(&set, &vec![], 120), None);
    assert_eq!(
        add_to_nft_set(&set, &vec![known, one], 120),
        Some("{ 1.1.1.1 timeout 120s }".to_string())
    );
    assert_eq!(
        add_to_nft_set(&set, &vec![one, known, two], 7200),
        Some("{ 1.1.1.1 timeout 7200s, 8.8.8.8 timeout 7200s }".to_string())
    );
}
