use dns_forwarder::addr::Ipv4Addr;
use dns_forwarder::domain_file::{parse_domain_file, DomainFileItem, DomainFileKind};
use dns_forwarder::error::ConfigError;
use dns_forwarder::extra_domain::{ExtraDomains, CLEANUP_INTERVAL, EXTRA_DOMAIN_TTL};
use dns_forwarder::trie::DomainTrie;

const SECOND: u64 = 1_000_000_000;

#[test]
fn the_longest_suffix_is_found() {
    let mut trie: DomainTrie<u8> = DomainTrie::new();
    assert_eq!(trie.get("a.b.c"), None);
    trie.insert("c", 1);
    trie.insert("b.c", 2);
    trie.insert("x.b.c", 3);
    assert_eq!(trie.get("c"), Some(&1));
    assert_eq!(trie.get("d.c"), Some(&1));
    assert_eq!(trie.get("b.c"), Some(&2));
    assert_eq!(trie.get("a.b.c"), Some(&2));
    assert_eq!(trie.get("a.x.b.c"), Some(&3));
    assert_eq!(trie.get("ab.c"), Some(&1));
    assert_eq!(trie.get("b"), None);
    assert_eq!(trie.get(""), None);
}

#[test]
fn a_suffix_ends_at_a_label() {
    let mut trie: DomainTrie<()> = DomainTrie::new();
    trie.insert("example.com", ());
    assert!(trie.get("www.example.com").is_some());
    assert!(trie.get("notexample.com").is_none());
    assert!(trie.get("com").is_none());
    assert!(trie.get("example.com.").is_none());
    assert!(trie.get("EXAMPLE.com").is_none());
}

#[test]
fn a_value_is_replaced() {
    let mut trie: DomainTrie<u8> = DomainTrie::new();
    trie.insert("b.c", 1);
    trie.insert("b.c", 2);
    assert_eq!(trie.get("b.c"), Some(&2));
    assert_eq!(trie.iter().len(), 1);
}

#[test]
fn every_domain_is_listed_once() {
    let mut trie: DomainTrie<u8> = DomainTrie::new();
    trie.insert("c", 1);
    trie.insert("a.b.c", 2);
    trie.insert("", 3);
    let mut all: Vec<(String, u8)> = trie.iter().into_iter().cloned().collect();
    all.sort();
    assert_eq!(
        all,
        vec![(String::new(), 3), ("a.b.c".to_string(), 2), ("c".to_string(), 1)]
    );
    assert_eq!(trie.get("b.c"), Some(&1));
}

#[test]
fn a_file_lists_domains() {
    let text: &str = "example.com\r\n\n  google.com  \n# a comment\n\t#another\nlast";
    let items: Vec<DomainFileItem> = parse_domain_file(text, DomainFileKind::Domain).unwrap();
    let mut names: Vec<String> = Vec::new();
    for item in items {
        match item {
            DomainFileItem::Domain(d) => names.push(d),
            DomainFileItem::DomainWithIpv4 { .. } => panic!("an address"),
        }
    }
    assert_eq!(names, vec!["example.com", "google.com", "last"]);
    assert!(parse_domain_file("", DomainFileKind::Domain).unwrap().is_empty());
}

#[test]
fn a_file_lists_domains_with_addresses() {
    let text: &str = "router.lan = 192.168.1.1\nnas.lan=192.168.1.100\n# x = 1.1.1.1\n";
    let items: Vec<DomainFileItem> =
        parse_domain_file(text, DomainFileKind::DomainWithIpv4).unwrap();
    let mut pairs: Vec<(String, u32)> = Vec::new();
    for item in items {
        match item {
            DomainFileItem::DomainWithIpv4 { domain, ip } => pairs.push((domain, ip.bits)),
            DomainFileItem::Domain(_) => panic!("no address"),
        }
    }
    assert_eq!(
        pairs,
        vec![("router.lan".to_string(), 0xC0A8_0101), ("nas.lan".to_string(), 0xC0A8_0164)]
    );
}

#[test]
fn a_faulty_line_is_refused() {
    let kind: DomainFileKind = DomainFileKind::DomainWithIpv4;
    assert_eq!(
        parse_domain_file("a = 1.1.1.1\nb\n", kind).err(),
        Some(ConfigError::LocalDomainWithoutAddress)
    );
    assert_eq!(
        parse_domain_file("a = b = 1.1.1.1", kind).err(),
        Some(ConfigError::InvalidLocalAddress)
    );
    assert_eq!(
        parse_domain_file("a = 1.1.1\nb", kind).err(),
        Some(ConfigError::InvalidLocalAddress)
    );
}

#[test]
fn an_address_is_four_bytes() {
    assert_eq!(Ipv4Addr { bits: 0x7F00_0001 }.octets(), [127, 0, 0, 1]);
}

#[test]
fn a_target_follows_its_rule_for_an_hour() {
    let mut extra: ExtraDomains = ExtraDomains::init();
    assert_eq!(extra.match_domain("cdn.net", 0), None);
    extra.add_domain("cdn.net", 4, 10 * SECOND);
    assert_eq!(extra.match_domain("cdn.net", 11 * SECOND), Some(4));
    assert_eq!(extra.match_domain("x.cdn.net", 11 * SECOND), Some(4));
    assert_eq!(extra.match_domain("net", 11 * SECOND), None);
    let end: u64 = (10 + EXTRA_DOMAIN_TTL) * SECOND;
    assert_eq!(extra.match_domain("cdn.net", end - 1), Some(4));
    assert_eq!(extra.match_domain("cdn.net", end), None);
    assert_eq!(extra.match_domain("cdn.net", 11 * SECOND), None);
}

#[test]
fn an_expired_target_uncovers_a_shorter_one() {
    let mut extra: ExtraDomains = ExtraDomains::init();
    extra.add_domain("a.cdn.net", 1, 0);
    extra.add_domain("cdn.net", 2, 60 * SECOND);
    assert_eq!(extra.match_domain("a.cdn.net", 61 * SECOND), Some(1));
    assert_eq!(extra.match_domain("a.cdn.net", EXTRA_DOMAIN_TTL * SECOND), Some(2));
}

#[test]
fn a_cleanup_drops_what_has_expired() {
    let mut extra: ExtraDomains = ExtraDomains::init();
    extra.add_domain("old.net", 1, 0);
    extra.add_domain("new.net", 2, CLEANUP_INTERVAL * SECOND);
    extra.cleanup_expired(EXTRA_DOMAIN_TTL * SECOND);
    assert_eq!(extra.match_domain("old.net", 1), None);
    assert_eq!(extra.match_domain("new.net", 1), Some(2));
}
