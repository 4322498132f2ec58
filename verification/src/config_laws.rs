//! What holds of a configuration that was made from its texts.
use crate::addr::{ClientSubnet, IpAddr, Ipv4Addr, SocketAddr};
use crate::config::{
    client_subnet, server_addr, servers, CacheConfig, RawConfig, RuleConfig, RuleKind, Surroundings,
};
use crate::decimal::{
    all_digits, byte_value, digits, digits_value, is_digit, law_digits_read_back,
};
use crate::domain_file::{file_items, DomainFileKind, DomainItem};
use crate::error::ConfigError;
use crate::rules::{
    config_of, forward_rule, is_private_suffix, nft_set_of, text_of, with_domain_files,
    with_domains, with_local_files, with_locals, with_rule, with_rules, CnameModel, ForwardModel,
    NftModel, RulesModel,
};
use crate::rules_laws::{lists, rule_lists};
use crate::text::{lemma_find, lemma_find_is, texts};
use crate::whitespace::words;
use vstd::prelude::*;

verus! {

/// A text that is an address with a port stands for that server, and one that is
/// an address stands for the server at that address and port 53. Any other text
/// is refused.
pub proof fn law_servers_have_a_port(env: Surroundings, text: Seq<char>)
    ensures
        env.sockets@.contains_key(text) ==> server_addr(env, text) == Ok::<SocketAddr, ConfigError>(
            env.sockets@[text],
        ),
        !env.sockets@.contains_key(text) && env.addresses@.contains_key(text) ==> server_addr(
            env,
            text,
        ) == Ok::<SocketAddr, ConfigError>(
            SocketAddr { ip: env.addresses@[text], port: 53, flowinfo: 0, scope_id: 0 },
        ),
        !env.sockets@.contains_key(text) && !env.addresses@.contains_key(text) ==> server_addr(
            env,
            text,
        ) == Err::<SocketAddr, ConfigError>(ConfigError::InvalidServerAddress),
{
}

/// A list of texts stands for the servers of its texts, one for each and in their
/// order. It is refused just where one of them is.
pub proof fn law_each_text_is_a_server(env: Surroundings, list: Seq<Seq<char>>, count: nat)
    requires
        count <= list.len(),
    ensures
        servers(env, list, count) matches Ok(found) ==> found.len() == count && forall|i: int|
            0 <= i < count ==> server_addr(env, #[trigger] list[i]) == Ok::<
                SocketAddr,
                ConfigError,
            >(found[i]),
        servers(env, list, count) is Err <==> exists|i: int|
            0 <= i < count && server_addr(env, #[trigger] list[i]) is Err,
    decreases count,
{
    if count > 0 {
        let last = (count - 1) as nat;
        law_each_text_is_a_server(env, list, last);
        if servers(env, list, last) is Err {
            let i = choose|i: int| 0 <= i < last && server_addr(env, #[trigger] list[i]) is Err;
            assert(server_addr(env, list[i]) is Err);
        } else if server_addr(env, list[last as int]) is Ok {
            let found = servers(env, list, count)->Ok_0;
            assert forall|i: int| 0 <= i < count implies server_addr(env, #[trigger] list[i])
                == Ok::<SocketAddr, ConfigError>(found[i]) by {}
        }
    }
}

/// The decimal text of a number below 256 reads as that number, and so it does
/// with a plus before it. Nothing else than digits, with a plus before them or
/// not, reads as a number.
pub proof fn law_prefix_lengths_read_back(n: nat, s: Seq<char>)
    ensures
        n < 256 ==> byte_value(digits(n)) == Some(n as u8) && byte_value(seq!['+'] + digits(n))
            == Some(n as u8),
        n >= 256 ==> byte_value(digits(n)) is None,
        byte_value(s) matches Some(v) ==> {
            let t = if s.len() > 0 && s[0] == '+' {
                s.skip(1)
            } else {
                s
            };
            t.len() > 0 && all_digits(t) && digits_value(t) == v
        },
{
    law_digits_read_back(n);
    let plus = seq!['+'] + digits(n);
    assert(plus.drop_first() =~= digits(n));
    assert(is_digit(digits(n)[0]));
    assert(s.len() > 0 ==> s.drop_first() =~= s.skip(1));
}

/// A text is a client subnet just where it is an address, a slash and a prefix that
/// is no longer than the address: 32 bits for IPv4, and 128 for IPv6. What stands
/// before the first slash is the address.
pub proof fn law_subnets_are_addresses_with_prefixes(
    env: Surroundings,
    address: Seq<char>,
    prefix: Seq<char>,
)
    requires
        !address.contains('/'),
    ensures
        client_subnet(env, address) == Err::<ClientSubnet, ConfigError>(
            ConfigError::SubnetWithoutPrefix,
        ),
        !env.addresses@.contains_key(address) ==> client_subnet(env, address.push('/') + prefix)
            == Err::<ClientSubnet, ConfigError>(ConfigError::InvalidSubnetAddress),
        env.addresses@.contains_key(address) && byte_value(prefix) is None ==> client_subnet(
            env,
            address.push('/') + prefix,
        ) == Err::<ClientSubnet, ConfigError>(ConfigError::InvalidPrefixLength),
        env.addresses@.contains_key(address) ==> (byte_value(prefix) matches Some(n)
            ==> client_subnet(env, address.push('/') + prefix) == (match env.addresses@[address] {
            IpAddr::V4(_) => if n > 32 {
                Err(ConfigError::Ipv4PrefixTooLong)
            } else {
                Ok(ClientSubnet { ip: env.addresses@[address], prefix_len: n })
            },
            IpAddr::V6(_) => if n > 128 {
                Err(ConfigError::Ipv6PrefixTooLong)
            } else {
                Ok(ClientSubnet { ip: env.addresses@[address], prefix_len: n })
            },
        })),
{
    let text = address.push('/') + prefix;
    assert forall|i: int| 0 <= i < address.len() implies text[i] != '/' by {
        assert(address[i] == text[i]);
    }
    lemma_find_is(text, '/', address.len() as int);
    lemma_find(address, '/');
    assert(text.take(address.len() as int) =~= address);
    assert(text.skip(address.len() as int + 1) =~= prefix);
}

/// The address to listen on, the default servers, the times and the subnet for all
/// are those that are written. Where nothing is written of the cache, it keeps a
/// hundred thousand responses, each for a minute at least and an hour at most.
pub proof fn law_configuration_is_as_written(env: Surroundings, raw: RawConfig)
    ensures
        config_of(env, raw) matches Ok(config) ==> {
            let defaults = raw.default_server@;
            &&& server_addr(env, raw.listen@) == Ok::<SocketAddr, ConfigError>(config.listen)
            &&& config.default_server.len() == defaults.len()
            &&& defaults.len() > 0
            &&& forall|i: int|
                0 <= i < defaults.len() ==> server_addr(env, (#[trigger] defaults[i])@) == Ok::<
                    SocketAddr,
                    ConfigError,
                >(config.default_server[i])
            &&& raw.cache matches Some(cache) ==> config.cache == cache
            &&& raw.cache is None ==> config.cache.max_entries == 100_000 && config.cache.min_ttl
                == 60 && config.cache.max_ttl == 3600
            &&& raw.edns_client_subnet is None ==> config.subnet is None
            &&& raw.edns_client_subnet matches Some(text) ==> (config.subnet matches Some(subnet)
                && client_subnet(env, text@) == Ok::<ClientSubnet, ConfigError>(subnet))
        },
{
    if config_of(env, raw) is Ok {
        let list = texts(raw.default_server@);
        law_each_text_is_a_server(env, list, list.len());
        let config = config_of(env, raw)->Ok_0;
        assert forall|i: int| 0 <= i < raw.default_server@.len() implies server_addr(
            env,
            (#[trigger] raw.default_server@[i])@,
        ) == Ok::<SocketAddr, ConfigError>(config.default_server[i]) by {
            assert(list[i] == raw.default_server@[i]@);
        }
    }
}

proof fn lemma_domains_exactly(
    m: Map<Seq<char>, ()>,
    items: Seq<DomainItem>,
    count: nat,
    domain: Seq<char>,
)
    requires
        count <= items.len(),
    ensures
        with_domains(m, items, count).contains_key(domain) <==> m.contains_key(domain)
            || exists|i: int| 0 <= i < count && #[trigger] items[i] == DomainItem::Domain(domain),
    decreases count,
{
    if count > 0 {
        let last = (count - 1) as nat;
        lemma_domains_exactly(m, items, last, domain);
        if exists|i: int| 0 <= i < last && #[trigger] items[i] == DomainItem::Domain(domain) {
            let i = choose|i: int|
                0 <= i < last && #[trigger] items[i] == DomainItem::Domain(domain);
            assert(items[i] == DomainItem::Domain(domain));
        }
    }
}

proof fn lemma_domain_files_exactly(
    env: Surroundings,
    m: Map<Seq<char>, ()>,
    files: Seq<Seq<char>>,
    count: nat,
    domain: Seq<char>,
)
    requires
        count <= files.len(),
    ensures
        with_domain_files(env, m, files, count) matches Ok(all) ==> (all.contains_key(domain)
            <==> m.contains_key(domain) || exists|f: int|
            0 <= f < count && #[trigger] lists(env, files[f], domain)),
    decreases count,
{
    if count > 0 && with_domain_files(env, m, files, count) is Ok {
        let last = (count - 1) as nat;
        lemma_domain_files_exactly(env, m, files, last, domain);
        let before = with_domain_files(env, m, files, last)->Ok_0;
        let file = files[last as int];
        let items = file_items(env.files@[file]@, DomainFileKind::Domain)->Ok_0;
        lemma_domains_exactly(before, items, items.len(), domain);
        assert(lists(env, files[last as int], domain) <==> exists|i: int|
            0 <= i < items.len() && #[trigger] items[i] == DomainItem::Domain(domain)) by {
            if items.contains(DomainItem::Domain(domain)) {
                let i = choose|i: int|
                    0 <= i < items.len() && items[i] == DomainItem::Domain(domain);
                assert(items[i] == DomainItem::Domain(domain));
            }
        }
        if exists|f: int| 0 <= f < last && #[trigger] lists(env, files[f], domain) {
            let f = choose|f: int| 0 <= f < last && #[trigger] lists(env, files[f], domain);
            assert(lists(env, files[f], domain));
        }
    }
}

/// Whether a rule among the first ones blocks a domain: it is a block rule, and one
/// of its files lists the domain.
pub open spec fn rule_blocks(
    env: Surroundings,
    rules: Seq<RuleConfig>,
    count: nat,
    domain: Seq<char>,
) -> bool {
    exists|r: int|
        0 <= r < count && (#[trigger] rules[r]).kind is Block && rule_lists(env, rules[r], domain)
}

proof fn lemma_blocked_exactly(
    env: Surroundings,
    rules: Seq<RuleConfig>,
    count: nat,
    domain: Seq<char>,
)
    requires
        count <= rules.len(),
    ensures
        with_rules(env, rules, count) matches Ok(made) ==> (made.blocked.contains_key(domain)
            <==> rule_blocks(env, rules, count, domain)),
    decreases count,
{
    if count > 0 && with_rules(env, rules, count) is Ok {
        let last = (count - 1) as nat;
        lemma_blocked_exactly(env, rules, last, domain);
        let before = with_rules(env, rules, last)->Ok_0;
        let rule = rules[last as int];
        let files = texts(rule.domain_files@);
        lemma_domain_files_exactly(env, before.blocked, files, files.len(), domain);
        if rule_blocks(env, rules, last, domain) {
            let r = choose|r: int|
                0 <= r < last && (#[trigger] rules[r]).kind is Block && rule_lists(
                    env,
                    rules[r],
                    domain,
                );
            assert(rules[r].kind is Block);
        }
        if rule.kind is Block && rule_lists(env, rule, domain) {
            assert(rules[last as int].kind is Block);
            let f = choose|f: int|
                0 <= f < rule.domain_files@.len() && #[trigger] lists(env, files[f], domain);
            assert(lists(env, files[f], domain));
        }
        if rule_blocks(env, rules, count, domain) {
            let r = choose|r: int|
                0 <= r < count && (#[trigger] rules[r]).kind is Block && rule_lists(
                    env,
                    rules[r],
                    domain,
                );
            if r < last {
                assert(rule_blocks(env, rules, last, domain));
            }
        }
    }
}

/// The blocked domains are those that the files of the block rules list and the
/// suffixes for private use, and no others.
pub proof fn law_only_listed_domains_are_blocked(
    env: Surroundings,
    raw: RawConfig,
    domain: Seq<char>,
)
    ensures
        config_of(env, raw) matches Ok(config) ==> (config.rules.blocked.contains_key(domain)
            <==> is_private_suffix(domain) || rule_blocks(
            env,
            raw.rules@,
            raw.rules@.len(),
            domain,
        )),
{
    lemma_blocked_exactly(env, raw.rules@, raw.rules@.len(), domain);
}

/// Whether a forward rule is made as it is written: it has its place among the
/// rules as its identifier, its name, the domains that its files list, its
/// upstreams in their order, and its wish about IPv6 addresses; and it has an
/// nftables set or a client subnet just where one is written, and that one.
pub open spec fn made_as_written(
    env: Surroundings,
    rules: Seq<RuleConfig>,
    made: ForwardModel,
) -> bool {
    let rule = rules[made.id];
    &&& 0 <= made.id < rules.len()
    &&& rule.kind matches RuleKind::Forward { upstreams, block_aaaa, nft_set } && {
        &&& made.name == text_of(rule.name)
        &&& made.block_aaaa == block_aaaa
        &&& made.upstreams.len() == upstreams@.len()
        &&& forall|i: int|
            0 <= i < upstreams@.len() ==> server_addr(env, (#[trigger] upstreams@[i])@) == Ok::<
                SocketAddr,
                ConfigError,
            >(made.upstreams[i])
        &&& forall|domain: Seq<char>| #[trigger]
            made.suffixes.contains_key(domain) <==> rule_lists(env, rule, domain)
        &&& nft_set is None ==> made.nft_set is None
        &&& nft_set matches Some(text) ==> (made.nft_set matches Some(set) && set_as_written(
            env,
            text@,
            set,
        ))
        &&& rule.edns_client_subnet is None ==> made.subnet is None
        &&& rule.edns_client_subnet matches Some(text) ==> (made.subnet matches Some(subnet)
            && client_subnet(env, text@) == Ok::<ClientSubnet, ConfigError>(subnet))
    }
}

/// Whether a set is the one that a text names by three words, with the elements
/// that are listed for the text.
pub open spec fn set_as_written(env: Surroundings, text: Seq<char>, set: NftModel) -> bool {
    &&& words(text).len() == 3
    &&& set.family == words(text)[0]
    &&& set.table == words(text)[1]
    &&& set.set == words(text)[2]
    &&& env.listings@.contains_key(text) ==> set.existing == env.listings@[text]@
    &&& !env.listings@.contains_key(text) ==> set.existing.len() == 0
}

proof fn lemma_forward_as_written(
    env: Surroundings,
    rules: Seq<RuleConfig>,
    id: int,
    upstreams: Vec<String>,
    block_aaaa: bool,
    nft_set: Option<String>,
)
    requires
        0 <= id < rules.len(),
        rules[id].kind == (RuleKind::Forward { upstreams, block_aaaa, nft_set }),
    ensures
        forward_rule(env, id, rules[id], texts(upstreams@), block_aaaa, nft_set) matches Ok(made)
            ==> made.id == id && made_as_written(env, rules, made),
{
    if let Ok(made) = forward_rule(env, id, rules[id], texts(upstreams@), block_aaaa, nft_set) {
        let rule = rules[id];
        let list = texts(upstreams@);
        let files = texts(rule.domain_files@);
        law_each_text_is_a_server(env, list, list.len());
        assert forall|i: int| 0 <= i < upstreams@.len() implies server_addr(
            env,
            (#[trigger] upstreams@[i])@,
        ) == Ok::<SocketAddr, ConfigError>(made.upstreams[i]) by {
            assert(list[i] == upstreams@[i]@);
        }
        assert forall|domain: Seq<char>| #[trigger]
            made.suffixes.contains_key(domain) <==> rule_lists(env, rule, domain) by {
            lemma_domain_files_exactly(env, Map::empty(), files, files.len(), domain);
            if rule_lists(env, rule, domain) {
                let f = choose|f: int|
                    0 <= f < rule.domain_files@.len() && #[trigger] lists(env, files[f], domain);
                assert(lists(env, files[f], domain));
            }
        }
    }
}

/// Whether forward rules are those among the first written ones: each is made as it
/// is written, none of them is left out, and they stand in the order in which they
/// are written.
pub open spec fn forwards_as_written(
    env: Surroundings,
    rules: Seq<RuleConfig>,
    count: nat,
    forward: Seq<ForwardModel>,
) -> bool {
    &&& forall|i: int|
        0 <= i < forward.len() ==> (#[trigger] forward[i]).id < count && made_as_written(
            env,
            rules,
            forward[i],
        )
    &&& forall|i: int, j: int|
        0 <= i < j < forward.len() ==> (#[trigger] forward[i]).id < (#[trigger] forward[j]).id
    &&& forall|r: int|
        0 <= r < count && (#[trigger] rules[r]).kind is Forward ==> exists|i: int|
            0 <= i < forward.len() && (#[trigger] forward[i]).id == r
}

proof fn lemma_forwards_as_written(env: Surroundings, rules: Seq<RuleConfig>, count: nat)
    requires
        count <= rules.len(),
    ensures
        with_rules(env, rules, count) matches Ok(model) ==> forwards_as_written(
            env,
            rules,
            count,
            model.forward,
        ),
    decreases count,
{
    if count > 0 && with_rules(env, rules, count) is Ok {
        let last = (count - 1) as nat;
        lemma_forwards_as_written(env, rules, last);
        let before = with_rules(env, rules, last)->Ok_0;
        let model = with_rules(env, rules, count)->Ok_0;
        let rule = rules[last as int];
        assert(with_rule(env, before, last as int, rule) is Ok);
        if let RuleKind::Forward { upstreams, block_aaaa, nft_set } = rule.kind {
            lemma_forward_as_written(env, rules, last as int, upstreams, block_aaaa, nft_set);
            assert(model.forward[before.forward.len() as int].id == last);
        } else {
            assert(model.forward == before.forward);
        }
        assert forall|r: int| 0 <= r < count && (
        #[trigger] rules[r]).kind is Forward implies exists|i: int|
            0 <= i < model.forward.len() && (#[trigger] model.forward[i]).id == r by {
            if r < last {
                let i = choose|i: int|
                    0 <= i < before.forward.len() && (#[trigger] before.forward[i]).id == r;
                assert(model.forward[i].id == r);
            }
        }
    }
}

/// The forward rules are those that are written, each made as it is written, every
/// one of them, and in the order in which they are written.
pub proof fn law_forward_rules_are_made_as_written(env: Surroundings, raw: RawConfig)
    ensures
        config_of(env, raw) matches Ok(config) ==> forwards_as_written(
            env,
            raw.rules@,
            raw.rules@.len(),
            config.rules.forward,
        ),
{
    lemma_forwards_as_written(env, raw.rules@, raw.rules@.len());
}

/// Whether an alias rule is made as it is written: it has its name, the domains that
/// its files list, and its targets.
pub open spec fn alias_as_written(env: Surroundings, rule: RuleConfig, made: CnameModel) -> bool {
    &&& rule.kind matches RuleKind::Cname { cname_list } && {
        &&& made.name == text_of(rule.name)
        &&& made.targets.len() == cname_list@.len()
        &&& forall|i: int|
            0 <= i < cname_list@.len() ==> made.targets[i] == (#[trigger] cname_list@[i])@
        &&& forall|domain: Seq<char>| #[trigger]
            made.suffixes.contains_key(domain) <==> rule_lists(env, rule, domain)
    }
}

/// Whether alias rules are those among the first written ones, at given places that
/// grow, with none left out.
pub open spec fn aliases_as_written(
    env: Surroundings,
    rules: Seq<RuleConfig>,
    count: nat,
    made: Seq<CnameModel>,
    places: Seq<int>,
) -> bool {
    &&& places.len() == made.len()
    &&& forall|i: int|
        0 <= i < made.len() ==> 0 <= #[trigger] places[i] < count && alias_as_written(
            env,
            rules[places[i]],
            made[i],
        )
    &&& forall|i: int, j: int|
        0 <= i < j < made.len() ==> #[trigger] places[i] < #[trigger] places[j]
    &&& forall|r: int|
        0 <= r < count && (#[trigger] rules[r]).kind is Cname ==> places.contains(r)
}

/// Whether alias rules are those among the first written ones, in their order.
pub open spec fn are_the_aliases(
    env: Surroundings,
    rules: Seq<RuleConfig>,
    count: nat,
    made: Seq<CnameModel>,
) -> bool {
    exists|places: Seq<int>| aliases_as_written(env, rules, count, made, places)
}

proof fn lemma_aliases_as_written(env: Surroundings, rules: Seq<RuleConfig>, count: nat)
    requires
        count <= rules.len(),
    ensures
        with_rules(env, rules, count) matches Ok(model) ==> are_the_aliases(
            env,
            rules,
            count,
            model.cname,
        ),
    decreases count,
{
    if count == 0 {
        let model = with_rules(env, rules, 0)->Ok_0;
        assert(aliases_as_written(env, rules, 0, model.cname, Seq::empty()));
    } else if with_rules(env, rules, count) is Ok {
        let last = (count - 1) as nat;
        lemma_aliases_as_written(env, rules, last);
        let before = with_rules(env, rules, last)->Ok_0;
        let model = with_rules(env, rules, count)->Ok_0;
        let rule = rules[last as int];
        let files = texts(rule.domain_files@);
        let places = choose|places: Seq<int>|
            aliases_as_written(env, rules, last, before.cname, places);
        assert(with_rule(env, before, last as int, rule) is Ok);
        if rule.kind is Cname {
            let made = model.cname.last();
            assert forall|domain: Seq<char>| #[trigger]
                made.suffixes.contains_key(domain) <==> rule_lists(env, rule, domain) by {
                lemma_domain_files_exactly(env, Map::empty(), files, files.len(), domain);
                if rule_lists(env, rule, domain) {
                    let f = choose|f: int|
                        0 <= f < rule.domain_files@.len() && #[trigger] lists(
                            env,
                            files[f],
                            domain,
                        );
                    assert(lists(env, files[f], domain));
                }
            }
            assert(alias_as_written(env, rule, made));
            let more = places.push(last as int);
            assert forall|r: int| 0 <= r < count && (
            #[trigger] rules[r]).kind is Cname implies more.contains(r) by {
                if r < last {
                    let k = places.index_of(r);
                    assert(more[k] == r);
                } else {
                    assert(more[places.len() as int] == r);
                }
            }
            assert(aliases_as_written(env, rules, count, model.cname, more));
        } else {
            assert(model.cname == before.cname);
            assert(aliases_as_written(env, rules, count, model.cname, places));
        }
    }
}

/// The alias rules are those that are written, each made as it is written, every
/// one of them, and in the order in which they are written.
pub proof fn law_alias_rules_are_made_as_written(env: Surroundings, raw: RawConfig)
    ensures
        config_of(env, raw) matches Ok(config) ==> are_the_aliases(
            env,
            raw.rules@,
            raw.rules@.len(),
            config.rules.cname,
        ),
{
    lemma_aliases_as_written(env, raw.rules@, raw.rules@.len());
}

/// Whether the first ones of some files can be read, and hold entries of a kind.
pub open spec fn files_hold(
    env: Surroundings,
    files: Seq<String>,
    count: nat,
    kind: DomainFileKind,
) -> bool {
    forall|f: int|
        0 <= f < count ==> env.files@.contains_key((#[trigger] files[f])@) && file_items(
            env.files@[files[f]@]@,
            kind,
        ) is Ok
}

/// Whether there is nothing wrong with a text for a subnet, where there is one.
pub open spec fn subnet_is_right(env: Surroundings, text: Option<String>) -> bool {
    text matches Some(s) ==> client_subnet(env, s@) is Ok
}

/// Whether there is nothing wrong with a rule.
pub open spec fn rule_is_right(env: Surroundings, rule: RuleConfig) -> bool {
    match rule.kind {
        RuleKind::Forward { upstreams, block_aaaa, nft_set } => {
            &&& files_hold(
                env,
                rule.domain_files@,
                rule.domain_files@.len(),
                DomainFileKind::Domain,
            )
            &&& upstreams@.len() > 0
            &&& forall|i: int|
                0 <= i < upstreams@.len() ==> server_addr(env, (#[trigger] upstreams@[i])@) is Ok
            &&& nft_set matches Some(text) ==> nft_set_of(env, text@) is Ok
            &&& subnet_is_right(env, rule.edns_client_subnet)
        },
        RuleKind::Local => files_hold(
            env,
            rule.domain_files@,
            rule.domain_files@.len(),
            DomainFileKind::DomainWithIpv4,
        ),
        _ => files_hold(
            env,
            rule.domain_files@,
            rule.domain_files@.len(),
            DomainFileKind::Domain,
        ),
    }
}

proof fn lemma_files_are_read(
    env: Surroundings,
    m: Map<Seq<char>, ()>,
    addresses: Map<Seq<char>, Ipv4Addr>,
    files: Seq<String>,
    count: nat,
)
    requires
        count <= files.len(),
    ensures
        with_domain_files(env, m, texts(files), count) is Ok <==> files_hold(
            env,
            files,
            count,
            DomainFileKind::Domain,
        ),
        with_local_files(env, addresses, texts(files), count) is Ok <==> files_hold(
            env,
            files,
            count,
            DomainFileKind::DomainWithIpv4,
        ),
    decreases count,
{
    if count > 0 {
        let last = (count - 1) as nat;
        lemma_files_are_read(env, m, addresses, files, last);
        assert(texts(files)[last as int] == files[last as int]@);
        if files_hold(env, files, count, DomainFileKind::Domain) {
            assert(files_hold(env, files, last, DomainFileKind::Domain));
        }
        if files_hold(env, files, count, DomainFileKind::DomainWithIpv4) {
            assert(files_hold(env, files, last, DomainFileKind::DomainWithIpv4));
        }
    }
}

proof fn lemma_servers_are_right(env: Surroundings, list: Seq<String>)
    ensures
        servers(env, texts(list), list.len()) is Ok <==> forall|i: int|
            0 <= i < list.len() ==> server_addr(env, (#[trigger] list[i])@) is Ok,
        servers(env, texts(list), list.len()) matches Ok(found) ==> found.len() == list.len(),
{
    law_each_text_is_a_server(env, texts(list), list.len());
    assert(forall|i: int| 0 <= i < list.len() ==> texts(list)[i] == (#[trigger] list[i])@);
    if exists|i: int| 0 <= i < list.len() && server_addr(env, #[trigger] texts(list)[i]) is Err {
        let i = choose|i: int|
            0 <= i < list.len() && server_addr(env, #[trigger] texts(list)[i]) is Err;
        assert(server_addr(env, list[i]@) is Err);
    } else {
        assert forall|i: int| 0 <= i < list.len() implies server_addr(
            env,
            (#[trigger] list[i])@,
        ) is Ok by {
            assert(server_addr(env, texts(list)[i]) is Ok);
        }
    }
}

proof fn lemma_rule_is_right(env: Surroundings, before: RulesModel, id: int, rule: RuleConfig)
    ensures
        with_rule(env, before, id, rule) is Ok <==> rule_is_right(env, rule),
{
    let files = rule.domain_files@;
    lemma_files_are_read(env, Map::empty(), before.local, files, files.len());
    lemma_files_are_read(env, before.blocked, before.local, files, files.len());
    if let RuleKind::Forward { upstreams, block_aaaa, nft_set } = rule.kind {
        lemma_servers_are_right(env, upstreams@);
    }
}

proof fn lemma_rules_are_right(env: Surroundings, rules: Seq<RuleConfig>, count: nat)
    requires
        count <= rules.len(),
    ensures
        with_rules(env, rules, count) is Ok <==> forall|r: int|
            0 <= r < count ==> rule_is_right(env, #[trigger] rules[r]),
    decreases count,
{
    if count > 0 {
        let last = (count - 1) as nat;
        lemma_rules_are_right(env, rules, last);
        if with_rules(env, rules, last) is Ok {
            lemma_rule_is_right(
                env,
                with_rules(env, rules, last)->Ok_0,
                last as int,
                rules[last as int],
            );
        }
    }
}

/// A configuration is refused only where something in it is wrong: the address to
/// listen on, a default server or the want of one, a rule, or the subnet for all.
pub proof fn law_right_configurations_are_made(env: Surroundings, raw: RawConfig)
    ensures
        config_of(env, raw) is Ok <==> {
            &&& server_addr(env, raw.listen@) is Ok
            &&& raw.default_server@.len() > 0
            &&& forall|i: int|
                0 <= i < raw.default_server@.len() ==> server_addr(
                    env,
                    (#[trigger] raw.default_server@[i])@,
                ) is Ok
            &&& forall|r: int|
                0 <= r < raw.rules@.len() ==> rule_is_right(env, #[trigger] raw.rules@[r])
            &&& subnet_is_right(env, raw.edns_client_subnet)
        },
{
    lemma_servers_are_right(env, raw.default_server@);
    lemma_rules_are_right(env, raw.rules@, raw.rules@.len());
}

/// Whether an entry gives a domain an address.
pub open spec fn gives(item: DomainItem, domain: Seq<char>) -> bool {
    item matches DomainItem::DomainWithIpv4 { domain: d, ip } && d == domain
}

proof fn lemma_locals_exactly(
    m: Map<Seq<char>, Ipv4Addr>,
    items: Seq<DomainItem>,
    count: nat,
    domain: Seq<char>,
)
    requires
        count <= items.len(),
    ensures
        ({
            let all = with_locals(m, items, count);
            &&& (forall|i: int| 0 <= i < count ==> !gives(#[trigger] items[i], domain)) ==> {
                &&& all.contains_key(domain) == m.contains_key(domain)
                &&& m.contains_key(domain) ==> all[domain] == m[domain]
            }
            &&& forall|i: int|
                0 <= i < count && gives(#[trigger] items[i], domain) && (forall|j: int|
                    i < j < count ==> !gives(#[trigger] items[j], domain)) ==> all.contains_key(
                    domain,
                ) && DomainItem::DomainWithIpv4 { domain, ip: all[domain] } == items[i]
        }),
    decreases count,
{
    if count > 0 {
        let last = (count - 1) as nat;
        lemma_locals_exactly(m, items, last, domain);
        let before = with_locals(m, items, last);
        let all = with_locals(m, items, count);
        assert forall|i: int|
            0 <= i < count && gives(#[trigger] items[i], domain) && (forall|j: int|
                i < j < count ==> !gives(
                    #[trigger] items[j],
                    domain,
                )) implies all.contains_key(domain) && DomainItem::DomainWithIpv4 {
            domain,
            ip: all[domain],
        } == items[i] by {
            if i < last {
                assert(!gives(items[last as int], domain));
                assert(forall|j: int| i < j < last ==> !gives(#[trigger] items[j], domain));
            }
        }
    }
}

/// The entries of a file of local domains that was read.
pub open spec fn local_items(env: Surroundings, file: Seq<char>) -> Seq<DomainItem> {
    file_items(env.files@[file]@, DomainFileKind::DomainWithIpv4)->Ok_0
}

/// Whether a file gives a domain an address.
pub open spec fn file_gives(env: Surroundings, file: Seq<char>, domain: Seq<char>) -> bool {
    exists|i: int|
        0 <= i < local_items(env, file).len() && gives(#[trigger] local_items(env, file)[i], domain)
}

proof fn lemma_local_files_exactly(
    env: Surroundings,
    m: Map<Seq<char>, Ipv4Addr>,
    files: Seq<Seq<char>>,
    count: nat,
    domain: Seq<char>,
)
    requires
        count <= files.len(),
    ensures
        with_local_files(env, m, files, count) matches Ok(all) ==> {
            &&& (forall|f: int| 0 <= f < count ==> !#[trigger] file_gives(env, files[f], domain))
                ==> {
                &&& all.contains_key(domain) == m.contains_key(domain)
                &&& m.contains_key(domain) ==> all[domain] == m[domain]
            }
            &&& forall|f: int, i: int|
                #![trigger local_items(env, files[f])[i]]
                0 <= f < count && last_in_file(env, files[f], i, domain) && (forall|g: int|
                    f < g < count ==> !#[trigger] file_gives(env, files[g], domain))
                    ==> all.contains_key(domain) && DomainItem::DomainWithIpv4 {
                    domain,
                    ip: all[domain],
                } == local_items(env, files[f])[i]
        },
    decreases count,
{
    if count > 0 && with_local_files(env, m, files, count) is Ok {
        let last = (count - 1) as nat;
        lemma_local_files_exactly(env, m, files, last, domain);
        let before = with_local_files(env, m, files, last)->Ok_0;
        let all = with_local_files(env, m, files, count)->Ok_0;
        let file = files[last as int];
        let items = local_items(env, file);
        lemma_locals_exactly(before, items, items.len(), domain);
        if !file_gives(env, file, domain) {
            assert forall|i: int| 0 <= i < items.len() implies !gives(
                #[trigger] items[i],
                domain,
            ) by {
                assert(items[i] == local_items(env, file)[i]);
            }
        }
        assert forall|f: int, i: int|
            #![trigger local_items(env, files[f])[i]]
            0 <= f < count && last_in_file(env, files[f], i, domain) && (forall|g: int|
                f < g < count ==> !#[trigger] file_gives(
                    env,
                    files[g],
                    domain,
                )) implies all.contains_key(domain) && DomainItem::DomainWithIpv4 {
            domain,
            ip: all[domain],
        } == local_items(env, files[f])[i] by {
            if f < last {
                assert(!file_gives(env, files[last as int], domain));
                assert(forall|g: int|
                    f < g < last ==> !#[trigger] file_gives(env, files[g], domain));
            }
        }
    }
}

/// Whether the entry with an index is the last one of a file that gives a domain an
/// address.
pub open spec fn last_in_file(
    env: Surroundings,
    file: Seq<char>,
    i: int,
    domain: Seq<char>,
) -> bool {
    &&& 0 <= i < local_items(env, file).len()
    &&& gives(local_items(env, file)[i], domain)
    &&& forall|j: int|
        i < j < local_items(env, file).len() ==> !gives(
            #[trigger] local_items(env, file)[j],
            domain,
        )
}

/// Whether a rule is a local one with a file that gives a domain an address.
pub open spec fn rule_gives(env: Surroundings, rule: RuleConfig, domain: Seq<char>) -> bool {
    rule.kind is Local && exists|f: int|
        0 <= f < rule.domain_files@.len() && #[trigger] file_gives(
            env,
            texts(rule.domain_files@)[f],
            domain,
        )
}

proof fn lemma_local_exactly(
    env: Surroundings,
    rules: Seq<RuleConfig>,
    count: nat,
    domain: Seq<char>,
    r: int,
    f: int,
    i: int,
)
    requires
        count <= rules.len(),
    ensures
        with_rules(env, rules, count) matches Ok(made) ==> {
            &&& (forall|k: int| 0 <= k < count ==> !rule_gives(env, #[trigger] rules[k], domain))
                ==> !made.local.contains_key(domain)
            &&& 0 <= r < count && is_last_listing(env, rules, count, domain, r, f, i) ==> {
                &&& made.local.contains_key(domain)
                &&& DomainItem::DomainWithIpv4 { domain, ip: made.local[domain] } == local_items(
                    env,
                    texts(rules[r].domain_files@)[f],
                )[i]
            }
        },
    decreases count,
{
    if count > 0 && with_rules(env, rules, count) is Ok {
        let last = (count - 1) as nat;
        lemma_local_exactly(env, rules, last, domain, r, f, i);
        let before = with_rules(env, rules, last)->Ok_0;
        let made = with_rules(env, rules, count)->Ok_0;
        let rule = rules[last as int];
        let files = texts(rule.domain_files@);
        if rule.kind is Local {
            lemma_local_files_exactly(env, before.local, files, files.len(), domain);
            if !rule_gives(env, rule, domain) {
                assert forall|g: int| 0 <= g < files.len() implies !#[trigger] file_gives(
                    env,
                    files[g],
                    domain,
                ) by {}
            }
        }
        if 0 <= r < count && is_last_listing(env, rules, count, domain, r, f, i) {
            if r < last {
                assert(!rule_gives(env, rules[last as int], domain));
                assert(is_last_listing(env, rules, last, domain, r, f, i));
            } else {
                assert(local_items(env, files[f])[i] == local_items(
                    env,
                    texts(rules[r].domain_files@)[f],
                )[i]);
            }
        }
        if forall|k: int| 0 <= k < count ==> !rule_gives(env, #[trigger] rules[k], domain) {
            assert(!rule_gives(env, rules[last as int], domain));
        }
    }
}

/// Whether the entry with an index of a file of a local rule gives a domain an
/// address, and no later entry of that file, no later file of that rule and no
/// later local rule among the first ones does.
pub open spec fn is_last_listing(
    env: Surroundings,
    rules: Seq<RuleConfig>,
    count: nat,
    domain: Seq<char>,
    r: int,
    f: int,
    i: int,
) -> bool {
    let files = texts(rules[r].domain_files@);
    &&& rules[r].kind is Local
    &&& 0 <= f < files.len()
    &&& last_in_file(env, files[f], i, domain)
    &&& forall|g: int| f < g < files.len() ==> !#[trigger] file_gives(env, files[g], domain)
    &&& forall|k: int| r < k < count ==> !rule_gives(env, #[trigger] rules[k], domain)
}

/// A local domain has the address that the local rules give it last, and a domain
/// to which none of them gives an address is not local.
pub proof fn law_last_address_of_a_local_domain_counts(
    env: Surroundings,
    raw: RawConfig,
    domain: Seq<char>,
    r: int,
    f: int,
    i: int,
)
    ensures
        config_of(env, raw) matches Ok(config) ==> {
            let rules = raw.rules@;
            &&& (forall|k: int|
                0 <= k < rules.len() ==> !rule_gives(env, #[trigger] rules[k], domain))
                ==> !config.rules.local.contains_key(domain)
            &&& 0 <= r < rules.len() && is_last_listing(env, rules, rules.len(), domain, r, f, i)
                ==> {
                &&& config.rules.local.contains_key(domain)
                &&& DomainItem::DomainWithIpv4 { domain, ip: config.rules.local[domain] }
                    == local_items(env, texts(rules[r].domain_files@)[f])[i]
            }
        },
{
    lemma_local_exactly(env, raw.rules@, raw.rules@.len(), domain, r, f, i);
}

/// A text names an nftables set just where it is three words, of which the first
/// names a family.
pub proof fn law_sets_are_named_by_three_words(env: Surroundings, text: Seq<char>)
    ensures
        nft_set_of(env, text) matches Ok(set) ==> set_as_written(env, text, set) && (words(text)[0]
            == "ip"@ || words(text)[0] == "ip6"@ || words(text)[0] == "inet"@),
        nft_set_of(env, text) is Err ==> words(text).len() != 3 || (words(text)[0] != "ip"@
            && words(text)[0] != "ip6"@ && words(text)[0] != "inet"@),
{
}

/// A cap and a floor on lifetimes: what is longer than the cap becomes the cap, what
/// is no longer than it and shorter than the floor becomes the floor, and the rest
/// stays.
pub proof fn law_cap_comes_before_floor(cache: CacheConfig, value: u64)
    ensures
        value > cache.max_ttl ==> cache.normalized(value) == cache.max_ttl,
        value <= cache.max_ttl && value < cache.min_ttl ==> cache.normalized(value)
            == cache.min_ttl,
        value <= cache.max_ttl && value >= cache.min_ttl ==> cache.normalized(value) == value,
{
}

} // verus!
