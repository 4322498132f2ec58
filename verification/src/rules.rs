//! The rules of a configuration, ready for use.
use crate::addr::{ClientSubnet, Ipv4Addr, SocketAddr};
use crate::config::{
    client_subnet, default_cache, parse_client_subnet, parse_dns_server_addr, parse_servers,
    server_addr, servers, CacheConfig, RawConfig, RuleConfig, RuleKind, Surroundings,
};
use crate::domain_file::{
    file_items, items_of, parse_domain_file, DomainFileItem, DomainFileKind, DomainItem,
};
use crate::error::ConfigError;
use crate::nft::{family_to_nfproto, family_value, NftElement, NftSet};
use crate::text::texts;
use crate::trie::{covers, law_lookup_is_longest_suffix, lookup, DomainTrie};
use crate::whitespace::{split_whitespace, words};
use vstd::prelude::*;

verus! {

/// A rule for queries that go to its own upstreams.
pub struct ForwardRule {
    pub id: usize,
    pub name: Option<String>,
    pub suffix_trie: DomainTrie<()>,
    pub upstreams: Vec<SocketAddr>,
    pub block_aaaa: bool,
    pub nft_set: Option<NftSet>,
    pub edns_client_subnet: Option<ClientSubnet>,
}

/// A rule for names that are aliases.
pub struct CnameRule {
    pub name: Option<String>,
    pub suffix_trie: DomainTrie<()>,
    pub cname_targets: Vec<String>,
}

/// The configuration, ready for use.
pub struct Config {
    pub listen: SocketAddr,
    pub default_server: Vec<SocketAddr>,
    pub cache: CacheConfig,
    pub forward_rules: Vec<ForwardRule>,
    pub cname_rules: Vec<CnameRule>,
    pub local_domains: DomainTrie<Ipv4Addr>,
    pub blocklist: DomainTrie<()>,
    pub edns_client_subnet: Option<ClientSubnet>,
}

/// The characters of a text, where there is one.
pub open spec fn text_of(o: Option<String>) -> Option<Seq<char>> {
    match o {
        Some(s) => Some(s@),
        None => None,
    }
}

/// An nftables set as characters and elements.
#[verifier::ext_equal]
pub struct NftModel {
    pub family: Seq<char>,
    pub table: Seq<char>,
    pub set: Seq<char>,
    pub existing: Seq<NftElement>,
}

/// The model of a set.
pub open spec fn nft_model(s: NftSet) -> NftModel {
    NftModel {
        family: s.family@,
        table: s.table@,
        set: s.set@,
        existing: s.existing_elements@,
    }
}

/// The model of a set, where there is one.
pub open spec fn nft_model_of(o: Option<NftSet>) -> Option<NftModel> {
    match o {
        Some(s) => Some(nft_model(s)),
        None => None,
    }
}

/// A forward rule as mathematical values.
#[verifier::ext_equal]
pub struct ForwardModel {
    pub id: int,
    pub name: Option<Seq<char>>,
    pub suffixes: Map<Seq<char>, ()>,
    pub upstreams: Seq<SocketAddr>,
    pub block_aaaa: bool,
    pub nft_set: Option<NftModel>,
    pub subnet: Option<ClientSubnet>,
}

impl View for ForwardRule {
    type V = ForwardModel;

    open spec fn view(&self) -> ForwardModel {
        ForwardModel {
            id: self.id as int,
            name: text_of(self.name),
            suffixes: self.suffix_trie@,
            upstreams: self.upstreams@,
            block_aaaa: self.block_aaaa,
            nft_set: nft_model_of(self.nft_set),
            subnet: self.edns_client_subnet,
        }
    }
}

/// An alias rule as mathematical values.
#[verifier::ext_equal]
pub struct CnameModel {
    pub name: Option<Seq<char>>,
    pub suffixes: Map<Seq<char>, ()>,
    pub targets: Seq<Seq<char>>,
}

impl View for CnameRule {
    type V = CnameModel;

    open spec fn view(&self) -> CnameModel {
        CnameModel {
            name: text_of(self.name),
            suffixes: self.suffix_trie@,
            targets: texts(self.cname_targets@),
        }
    }
}

/// The models of forward rules.
pub open spec fn forward_models(rules: Seq<ForwardRule>) -> Seq<ForwardModel> {
    Seq::new(rules.len(), |i: int| rules[i]@)
}

/// The models of alias rules.
pub open spec fn cname_models(rules: Seq<CnameRule>) -> Seq<CnameModel> {
    Seq::new(rules.len(), |i: int| rules[i]@)
}

/// What the rules come to.
#[verifier::ext_equal]
pub struct RulesModel {
    pub forward: Seq<ForwardModel>,
    pub cname: Seq<CnameModel>,
    pub local: Map<Seq<char>, Ipv4Addr>,
    pub blocked: Map<Seq<char>, ()>,
}

/// A configuration as mathematical values.
#[verifier::ext_equal]
pub struct ConfigModel {
    pub listen: SocketAddr,
    pub default_server: Seq<SocketAddr>,
    pub cache: CacheConfig,
    pub rules: RulesModel,
    pub subnet: Option<ClientSubnet>,
}

impl View for Config {
    type V = ConfigModel;

    open spec fn view(&self) -> ConfigModel {
        ConfigModel {
            listen: self.listen,
            default_server: self.default_server@,
            cache: self.cache,
            rules: RulesModel {
                forward: forward_models(self.forward_rules@),
                cname: cname_models(self.cname_rules@),
                local: self.local_domains@,
                blocked: self.blocklist@,
            },
            subnet: self.edns_client_subnet,
        }
    }
}

/// A map with the first `count` entries of a file of domains.
pub open spec fn with_domains(
    m: Map<Seq<char>, ()>,
    items: Seq<DomainItem>,
    count: nat,
) -> Map<Seq<char>, ()>
    decreases count,
{
    if count == 0 {
        m
    } else {
        let before = with_domains(m, items, (count - 1) as nat);
        match items[count - 1] {
            DomainItem::Domain(domain) => before.insert(domain, ()),
            _ => before,
        }
    }
}

/// A map with the domains of the first `count` files.
pub open spec fn with_domain_files(
    env: Surroundings,
    m: Map<Seq<char>, ()>,
    files: Seq<Seq<char>>,
    count: nat,
) -> Result<Map<Seq<char>, ()>, ConfigError>
    decreases count,
{
    if count == 0 {
        Ok(m)
    } else {
        match with_domain_files(env, m, files, (count - 1) as nat) {
            Err(e) => Err(e),
            Ok(before) => if !env.files@.contains_key(files[count - 1]) {
                Err(ConfigError::UnreadableDomainFile)
            } else {
                match file_items(env.files@[files[count - 1]]@, DomainFileKind::Domain) {
                    Err(e) => Err(e),
                    Ok(items) => Ok(with_domains(before, items, items.len())),
                }
            },
        }
    }
}

/// A map with the first `count` entries of a file of domains with addresses.
pub open spec fn with_locals(
    m: Map<Seq<char>, Ipv4Addr>,
    items: Seq<DomainItem>,
    count: nat,
) -> Map<Seq<char>, Ipv4Addr>
    decreases count,
{
    if count == 0 {
        m
    } else {
        let before = with_locals(m, items, (count - 1) as nat);
        match items[count - 1] {
            DomainItem::DomainWithIpv4 { domain, ip } => before.insert(domain, ip),
            _ => before,
        }
    }
}

/// A map with the domains and addresses of the first `count` files.
pub open spec fn with_local_files(
    env: Surroundings,
    m: Map<Seq<char>, Ipv4Addr>,
    files: Seq<Seq<char>>,
    count: nat,
) -> Result<Map<Seq<char>, Ipv4Addr>, ConfigError>
    decreases count,
{
    if count == 0 {
        Ok(m)
    } else {
        match with_local_files(env, m, files, (count - 1) as nat) {
            Err(e) => Err(e),
            Ok(before) => if !env.files@.contains_key(files[count - 1]) {
                Err(ConfigError::UnreadableDomainFile)
            } else {
                match file_items(env.files@[files[count - 1]]@, DomainFileKind::DomainWithIpv4) {
                    Err(e) => Err(e),
                    Ok(items) => Ok(with_locals(before, items, items.len())),
                }
            },
        }
    }
}

proof fn lemma_domain_files_error_stays(
    env: Surroundings,
    m: Map<Seq<char>, ()>,
    files: Seq<Seq<char>>,
    some: nat,
    more: nat,
)
    requires
        some <= more,
        with_domain_files(env, m, files, some) is Err,
    ensures
        with_domain_files(env, m, files, more) == with_domain_files(env, m, files, some),
    decreases more,
{
    if some < more {
        lemma_domain_files_error_stays(env, m, files, some, (more - 1) as nat);
    }
}

proof fn lemma_local_files_error_stays(
    env: Surroundings,
    m: Map<Seq<char>, Ipv4Addr>,
    files: Seq<Seq<char>>,
    some: nat,
    more: nat,
)
    requires
        some <= more,
        with_local_files(env, m, files, some) is Err,
    ensures
        with_local_files(env, m, files, more) == with_local_files(env, m, files, some),
    decreases more,
{
    if some < more {
        lemma_local_files_error_stays(env, m, files, some, (more - 1) as nat);
    }
}

/// Adds the domains of some files.
fn add_domain_files(env: &Surroundings, trie: &mut DomainTrie<()>, files: &Vec<String>) -> (r:
    Result<(), ConfigError>)
    ensures
        match with_domain_files(*env, old(trie)@, texts(files@), files@.len()) {
            Ok(m) => r is Ok && final(trie)@ == m,
            Err(e) => r matches Err(err) && err == e,
        },
{
    let ghost start = trie@;
    let mut i: usize = 0;
    while i < files.len()
        invariant
            i <= files@.len(),
            start == old(trie)@,
            with_domain_files(*env, start, texts(files@), i as nat) == Ok::<
                Map<Seq<char>, ()>,
                ConfigError,
            >(trie@),
        decreases files@.len() - i,
    {
        proof {
            if with_domain_files(*env, start, texts(files@), (i + 1) as nat) is Err {
                lemma_domain_files_error_stays(
                    *env,
                    start,
                    texts(files@),
                    (i + 1) as nat,
                    files@.len(),
                );
            }
        }
        let content: &String = match env.files.get(files[i].as_str()) {
            Some(content) => content,
            None => {
                return Err(ConfigError::UnreadableDomainFile);
            },
        };
        let items: Vec<DomainFileItem> = match parse_domain_file(
            content.as_str(),
            DomainFileKind::Domain,
        ) {
            Ok(items) => items,
            Err(e) => {
                return Err(e);
            },
        };
        let ghost before = trie@;
        let mut k: usize = 0;
        while k < items.len()
            invariant
                k <= items@.len(),
                trie@ == with_domains(before, items_of(items@), k as nat),
            decreases items@.len() - k,
        {
            assert(items_of(items@)[k as int] == items@[k as int]@);
            match &items[k] {
                DomainFileItem::Domain(domain) => {
                    trie.insert(domain.as_str(), ());
                },
                _ => {},
            }
            k += 1;
        }
        i += 1;
    }
    Ok(())
}

/// Adds the domains and addresses of some files.
fn add_local_files(env: &Surroundings, trie: &mut DomainTrie<Ipv4Addr>, files: &Vec<String>) -> (r:
    Result<(), ConfigError>)
    ensures
        match with_local_files(*env, old(trie)@, texts(files@), files@.len()) {
            Ok(m) => r is Ok && final(trie)@ == m,
            Err(e) => r matches Err(err) && err == e,
        },
{
    let ghost start = trie@;
    let mut i: usize = 0;
    while i < files.len()
        invariant
            i <= files@.len(),
            start == old(trie)@,
            with_local_files(*env, start, texts(files@), i as nat) == Ok::<
                Map<Seq<char>, Ipv4Addr>,
                ConfigError,
            >(trie@),
        decreases files@.len() - i,
    {
        proof {
            if with_local_files(*env, start, texts(files@), (i + 1) as nat) is Err {
                lemma_local_files_error_stays(
                    *env,
                    start,
                    texts(files@),
                    (i + 1) as nat,
                    files@.len(),
                );
            }
        }
        let content: &String = match env.files.get(files[i].as_str()) {
            Some(content) => content,
            None => {
                return Err(ConfigError::UnreadableDomainFile);
            },
        };
        let items: Vec<DomainFileItem> = match parse_domain_file(
            content.as_str(),
            DomainFileKind::DomainWithIpv4,
        ) {
            Ok(items) => items,
            Err(e) => {
                return Err(e);
            },
        };
        let ghost before = trie@;
        let mut k: usize = 0;
        while k < items.len()
            invariant
                k <= items@.len(),
                trie@ == with_locals(before, items_of(items@), k as nat),
            decreases items@.len() - k,
        {
            assert(items_of(items@)[k as int] == items@[k as int]@);
            match &items[k] {
                DomainFileItem::DomainWithIpv4 { domain, ip } => {
                    trie.insert(domain.as_str(), *ip);
                },
                _ => {},
            }
            k += 1;
        }
        i += 1;
    }
    Ok(())
}

/// The nftables set that a text names: a family, a table and a set, with the
/// elements that are listed for it.
pub open spec fn nft_set_of(env: Surroundings, text: Seq<char>) -> Result<NftModel, ConfigError> {
    let parts = words(text);
    if parts.len() != 3 {
        Err(ConfigError::InvalidNftSet)
    } else {
        match family_value(parts[0]) {
            Err(e) => Err(e),
            Ok(_) => Ok(
                NftModel {
                    family: parts[0],
                    table: parts[1],
                    set: parts[2],
                    existing: if env.listings@.contains_key(text) {
                        env.listings@[text]@
                    } else {
                        Seq::empty()
                    },
                },
            ),
        }
    }
}

/// Takes a text that names an nftables set apart.
pub fn parse_nft_set(s: &str) -> (r: Result<(String, String, String), ConfigError>)
    ensures
        match r {
            Ok((family, table, set)) => words(s@) == seq![family@, table@, set@] && family_value(
                family@,
            ) is Ok,
            Err(e) => if words(s@).len() != 3 {
                e == ConfigError::InvalidNftSet
            } else {
                family_value(words(s@)[0]) == Err::<u8, ConfigError>(e)
            },
        },
{
    let parts: Vec<String> = split_whitespace(s);
    assert(texts(parts@).len() == parts@.len());
    if parts.len() != 3 {
        return Err(ConfigError::InvalidNftSet);
    }
    assert(texts(parts@) =~= seq![parts@[0]@, parts@[1]@, parts@[2]@]);
    match family_to_nfproto(parts[0].as_str()) {
        Ok(_) => Ok((parts[0].clone(), parts[1].clone(), parts[2].clone())),
        Err(e) => Err(e),
    }
}

/// Finds the nftables set that a text names.
fn find_nft_set(env: &Surroundings, s: &str) -> (r: Result<NftSet, ConfigError>)
    ensures
        match nft_set_of(*env, s@) {
            Ok(model) => r matches Ok(set) && nft_model(set) == model,
            Err(e) => r matches Err(err) && err == e,
        },
{
    let (family, table, set) = match parse_nft_set(s) {
        Ok(parts) => parts,
        Err(e) => {
            return Err(e);
        },
    };
    let mut existing_elements: Vec<NftElement> = Vec::new();
    match env.listings.get(s) {
        Some(listed) => {
            let mut i: usize = 0;
            while i < listed.len()
                invariant
                    i <= listed@.len(),
                    existing_elements@ == listed@.take(i as int),
                decreases listed@.len() - i,
            {
                existing_elements.push(listed[i]);
                i += 1;
                assert(existing_elements@ =~= listed@.take(i as int));
            }
            assert(listed@.take(listed@.len() as int) =~= listed@);
        },
        None => {},
    }
    Ok(NftSet { family, table, set, existing_elements })
}

/// The nftables set that a text names, where there is a text.
pub open spec fn optional_nft_set(env: Surroundings, text: Option<String>) -> Result<
    Option<NftModel>,
    ConfigError,
> {
    match text {
        None => Ok(None),
        Some(s) => match nft_set_of(env, s@) {
            Ok(set) => Ok(Some(set)),
            Err(e) => Err(e),
        },
    }
}

/// The client subnet that a text stands for, where there is a text.
pub open spec fn optional_subnet(env: Surroundings, text: Option<String>) -> Result<
    Option<ClientSubnet>,
    ConfigError,
> {
    match text {
        None => Ok(None),
        Some(s) => match client_subnet(env, s@) {
            Ok(subnet) => Ok(Some(subnet)),
            Err(e) => Err(e),
        },
    }
}

/// Finds the nftables set that a text names, where there is a text.
fn find_optional_nft_set(env: &Surroundings, text: &Option<String>) -> (r: Result<
    Option<NftSet>,
    ConfigError,
>)
    ensures
        match optional_nft_set(*env, *text) {
            Ok(model) => r matches Ok(set) && nft_model_of(set) == model,
            Err(e) => r matches Err(err) && err == e,
        },
{
    match text {
        None => Ok(None),
        Some(s) => match find_nft_set(env, s.as_str()) {
            Ok(set) => Ok(Some(set)),
            Err(e) => Err(e),
        },
    }
}

/// Finds the client subnet that a text stands for, where there is a text.
fn find_optional_subnet(env: &Surroundings, text: &Option<String>) -> (r: Result<
    Option<ClientSubnet>,
    ConfigError,
>)
    ensures
        r == optional_subnet(*env, *text),
{
    match text {
        None => Ok(None),
        Some(s) => match parse_client_subnet(env, s.as_str()) {
            Ok(subnet) => Ok(Some(subnet)),
            Err(e) => Err(e),
        },
    }
}

/// Copies a text, where there is one.
fn copy_text(text: &Option<String>) -> (r: Option<String>)
    ensures
        text_of(r) == text_of(*text),
{
    match text {
        Some(s) => Some(s.clone()),
        None => None,
    }
}

/// Copies a list of texts.
fn copy_texts(list: &Vec<String>) -> (r: Vec<String>)
    ensures
        texts(r@) == texts(list@),
{
    let mut out: Vec<String> = Vec::new();
    let mut i: usize = 0;
    while i < list.len()
        invariant
            i <= list@.len(),
            out@.len() == i,
            forall|k: int| 0 <= k < i ==> (#[trigger] out@[k])@ == list@[k]@,
        decreases list@.len() - i,
    {
        out.push(list[i].clone());
        i += 1;
    }
    assert(texts(out@) =~= texts(list@));
    out
}

/// What a forward rule comes to: its files are read first, then its upstreams,
/// its nftables set and its client subnet.
pub open spec fn forward_rule(
    env: Surroundings,
    id: int,
    rule: RuleConfig,
    upstreams: Seq<Seq<char>>,
    block_aaaa: bool,
    nft_set: Option<String>,
) -> Result<ForwardModel, ConfigError> {
    match with_domain_files(
        env,
        Map::empty(),
        texts(rule.domain_files@),
        rule.domain_files@.len(),
    ) {
        Err(e) => Err(e),
        Ok(suffixes) => match servers(env, upstreams, upstreams.len()) {
            Err(e) => Err(e),
            Ok(found) => if found.len() == 0 {
                Err(ConfigError::NoUpstream)
            } else {
                match optional_nft_set(env, nft_set) {
                    Err(e) => Err(e),
                    Ok(set) => match optional_subnet(env, rule.edns_client_subnet) {
                        Err(e) => Err(e),
                        Ok(subnet) => Ok(
                            ForwardModel {
                                id,
                                name: text_of(rule.name),
                                suffixes,
                                upstreams: found,
                                block_aaaa,
                                nft_set: set,
                                subnet,
                            },
                        ),
                    },
                }
            },
        },
    }
}

/// Makes a forward rule.
fn make_forward_rule(
    env: &Surroundings,
    id: usize,
    rule: &RuleConfig,
    upstreams: &Vec<String>,
    block_aaaa: bool,
    nft_set: &Option<String>,
) -> (r: Result<ForwardRule, ConfigError>)
    ensures
        match forward_rule(*env, id as int, *rule, texts(upstreams@), block_aaaa, *nft_set) {
            Ok(model) => r matches Ok(made) && made@ == model,
            Err(e) => r matches Err(err) && err == e,
        },
{
    let mut suffix_trie: DomainTrie<()> = DomainTrie::new();
    match add_domain_files(env, &mut suffix_trie, &rule.domain_files) {
        Ok(()) => {},
        Err(e) => {
            return Err(e);
        },
    }
    assert(texts(upstreams@).len() == upstreams@.len());
    let upstreams: Vec<SocketAddr> = match parse_servers(env, upstreams) {
        Ok(found) => found,
        Err(e) => {
            return Err(e);
        },
    };
    if upstreams.len() == 0 {
        return Err(ConfigError::NoUpstream);
    }
    let nft_set: Option<NftSet> = match find_optional_nft_set(env, nft_set) {
        Ok(set) => set,
        Err(e) => {
            return Err(e);
        },
    };
    match find_optional_subnet(env, &rule.edns_client_subnet) {
        Err(e) => Err(e),
        Ok(edns_client_subnet) => Ok(
            ForwardRule {
                id,
                name: copy_text(&rule.name),
                suffix_trie,
                upstreams,
                block_aaaa,
                nft_set,
                edns_client_subnet,
            },
        ),
    }
}

/// What the rules come to with one more of them.
pub open spec fn with_rule(
    env: Surroundings,
    before: RulesModel,
    id: int,
    rule: RuleConfig,
) -> Result<RulesModel, ConfigError> {
    let files = texts(rule.domain_files@);
    match rule.kind {
        RuleKind::Forward { upstreams, block_aaaa, nft_set } => match forward_rule(
            env,
            id,
            rule,
            texts(upstreams@),
            block_aaaa,
            nft_set,
        ) {
            Err(e) => Err(e),
            Ok(made) => Ok(RulesModel { forward: before.forward.push(made), ..before }),
        },
        RuleKind::Block => match with_domain_files(env, before.blocked, files, files.len()) {
            Err(e) => Err(e),
            Ok(blocked) => Ok(RulesModel { blocked, ..before }),
        },
        RuleKind::Local => match with_local_files(env, before.local, files, files.len()) {
            Err(e) => Err(e),
            Ok(local) => Ok(RulesModel { local, ..before }),
        },
        RuleKind::Cname { cname_list } => match with_domain_files(
            env,
            Map::empty(),
            files,
            files.len(),
        ) {
            Err(e) => Err(e),
            Ok(suffixes) => Ok(
                RulesModel {
                    cname: before.cname.push(
                        CnameModel {
                            name: text_of(rule.name),
                            suffixes,
                            targets: texts(cname_list@),
                        },
                    ),
                    ..before
                },
            ),
        },
    }
}

/// What no rules come to.
pub open spec fn no_rules() -> RulesModel {
    RulesModel {
        forward: Seq::empty(),
        cname: Seq::empty(),
        local: Map::empty(),
        blocked: Map::empty(),
    }
}

/// What the first `count` rules come to. The place of a rule is its identifier.
pub open spec fn with_rules(env: Surroundings, rules: Seq<RuleConfig>, count: nat) -> Result<
    RulesModel,
    ConfigError,
>
    decreases count,
{
    if count == 0 {
        Ok(no_rules())
    } else {
        match with_rules(env, rules, (count - 1) as nat) {
            Err(e) => Err(e),
            Ok(before) => with_rule(env, before, count - 1, rules[count - 1]),
        }
    }
}

proof fn lemma_rules_error_stays(
    env: Surroundings,
    rules: Seq<RuleConfig>,
    some: nat,
    more: nat,
)
    requires
        some <= more,
        with_rules(env, rules, some) is Err,
    ensures
        with_rules(env, rules, more) == with_rules(env, rules, some),
    decreases more,
{
    if some < more {
        lemma_rules_error_stays(env, rules, some, (more - 1) as nat);
    }
}

/// The blocked domains with the suffixes for private use.
pub open spec fn with_private_domains(blocked: Map<Seq<char>, ()>) -> Map<Seq<char>, ()> {
    blocked.insert("lan"@, ()).insert("local"@, ()).insert("home.arpa"@, ()).insert(
        "corp"@,
        (),
    ).insert("internal"@, ())
}

/// The configuration that the texts stand for: the address to listen on and the
/// default servers are read first, then the rules in their order, then the
/// client subnet for all.
pub open spec fn config_of(env: Surroundings, raw: RawConfig) -> Result<ConfigModel, ConfigError> {
    let defaults = texts(raw.default_server@);
    match server_addr(env, raw.listen@) {
        Err(e) => Err(e),
        Ok(listen) => match servers(env, defaults, defaults.len()) {
            Err(e) => Err(e),
            Ok(default_server) => if default_server.len() == 0 {
                Err(ConfigError::NoDefaultServer)
            } else {
                match with_rules(env, raw.rules@, raw.rules@.len()) {
                    Err(e) => Err(e),
                    Ok(rules) => match optional_subnet(env, raw.edns_client_subnet) {
                        Err(e) => Err(e),
                        Ok(subnet) => Ok(
                            ConfigModel {
                                listen,
                                default_server,
                                cache: match raw.cache {
                                    Some(cache) => cache,
                                    None => default_cache(),
                                },
                                rules: RulesModel {
                                    blocked: with_private_domains(rules.blocked),
                                    ..rules
                                },
                                subnet,
                            },
                        ),
                    },
                }
            },
        },
    }
}

/// The rules that have been made.
struct Rules {
    forward: Vec<ForwardRule>,
    cname: Vec<CnameRule>,
    local: DomainTrie<Ipv4Addr>,
    blocked: DomainTrie<()>,
}

impl Rules {
    spec fn model(self) -> RulesModel {
        RulesModel {
            forward: forward_models(self.forward@),
            cname: cname_models(self.cname@),
            local: self.local@,
            blocked: self.blocked@,
        }
    }

    /// Makes one more rule.
    fn add_rule(&mut self, env: &Surroundings, id: usize, rule: &RuleConfig) -> (r: Result<
        (),
        ConfigError,
    >)
        ensures
            match with_rule(*env, old(self).model(), id as int, *rule) {
                Ok(model) => r is Ok && final(self).model() == model,
                Err(e) => r matches Err(err) && err == e,
            },
    {
        assert(texts(rule.domain_files@).len() == rule.domain_files@.len());
        match &rule.kind {
            RuleKind::Forward { upstreams, block_aaaa, nft_set } => {
                match make_forward_rule(env, id, rule, upstreams, *block_aaaa, nft_set) {
                    Ok(made) => {
                        let ghost before = forward_models(self.forward@);
                        let ghost model = made@;
                        self.forward.push(made);
                        assert(forward_models(self.forward@) =~= before.push(model));
                        Ok(())
                    },
                    Err(e) => Err(e),
                }
            },
            RuleKind::Block => add_domain_files(env, &mut self.blocked, &rule.domain_files),
            RuleKind::Local => add_local_files(env, &mut self.local, &rule.domain_files),
            RuleKind::Cname { cname_list } => {
                let mut suffix_trie: DomainTrie<()> = DomainTrie::new();
                match add_domain_files(env, &mut suffix_trie, &rule.domain_files) {
                    Ok(()) => {},
                    Err(e) => {
                        return Err(e);
                    },
                }
                let made: CnameRule = CnameRule {
                    name: copy_text(&rule.name),
                    suffix_trie,
                    cname_targets: copy_texts(cname_list),
                };
                let ghost before = cname_models(self.cname@);
                let ghost model = made@;
                self.cname.push(made);
                assert(cname_models(self.cname@) =~= before.push(model));
                Ok(())
            },
        }
    }

    /// Makes all rules.
    fn make(env: &Surroundings, rules: &Vec<RuleConfig>) -> (r: Result<Rules, ConfigError>)
        ensures
            match with_rules(*env, rules@, rules@.len()) {
                Ok(model) => r matches Ok(made) && made.model() == model,
                Err(e) => r matches Err(err) && err == e,
            },
    {
        let mut made: Rules = Rules {
            forward: Vec::new(),
            cname: Vec::new(),
            local: DomainTrie::new(),
            blocked: DomainTrie::new(),
        };
        assert(made.model() =~= no_rules());
        let mut id: usize = 0;
        while id < rules.len()
            invariant
                id <= rules@.len(),
                with_rules(*env, rules@, id as nat) == Ok::<RulesModel, ConfigError>(made.model()),
            decreases rules@.len() - id,
        {
            proof {
                if with_rules(*env, rules@, (id + 1) as nat) is Err {
                    lemma_rules_error_stays(*env, rules@, (id + 1) as nat, rules@.len());
                }
            }
            match made.add_rule(env, id, &rules[id]) {
                Ok(()) => {},
                Err(e) => {
                    return Err(e);
                },
            }
            id += 1;
        }
        Ok(made)
    }
}

impl Config {
    /// Makes the configuration that the texts stand for.
    pub fn build(env: &Surroundings, raw: &RawConfig) -> (r: Result<Config, ConfigError>)
        ensures
            match config_of(*env, *raw) {
                Ok(model) => r matches Ok(config) && config@ == model,
                Err(e) => r matches Err(err) && err == e,
            },
    {
        let listen: SocketAddr = match parse_dns_server_addr(env, raw.listen.as_str()) {
            Ok(listen) => listen,
            Err(e) => {
                return Err(e);
            },
        };
        assert(texts(raw.default_server@).len() == raw.default_server@.len());
        let default_server: Vec<SocketAddr> = match parse_servers(env, &raw.default_server) {
            Ok(found) => found,
            Err(e) => {
                return Err(e);
            },
        };
        if default_server.len() == 0 {
            return Err(ConfigError::NoDefaultServer);
        }
        let rules: Rules = match Rules::make(env, &raw.rules) {
            Ok(rules) => rules,
            Err(e) => {
                return Err(e);
            },
        };
        let mut blocklist: DomainTrie<()> = rules.blocked;
        blocklist.insert("lan", ());
        blocklist.insert("local", ());
        blocklist.insert("home.arpa", ());
        blocklist.insert("corp", ());
        blocklist.insert("internal", ());
        let cache: CacheConfig = match raw.cache {
            Some(cache) => cache,
            None => CacheConfig::default(),
        };
        match find_optional_subnet(env, &raw.edns_client_subnet) {
            Ok(edns_client_subnet) => Ok(
                Config {
                    listen,
                    default_server,
                    cache,
                    forward_rules: rules.forward,
                    cname_rules: rules.cname,
                    local_domains: rules.local,
                    blocklist,
                    edns_client_subnet,
                },
            ),
            Err(e) => Err(e),
        }
    }
}

/// Every configuration has a default server, and every forward rule has an
/// upstream.
pub proof fn law_every_rule_has_an_upstream(env: Surroundings, raw: RawConfig)
    ensures
        config_of(env, raw) matches Ok(config) ==> config.default_server.len() > 0 && forall|i: int|
            0 <= i < config.rules.forward.len() ==> (
            #[trigger] config.rules.forward[i]).upstreams.len() > 0,
{
    lemma_rules_have_upstreams(env, raw.rules@, raw.rules@.len());
}

proof fn lemma_rules_have_upstreams(env: Surroundings, rules: Seq<RuleConfig>, count: nat)
    ensures
        with_rules(env, rules, count) matches Ok(model) ==> forall|i: int|
            0 <= i < model.forward.len() ==> (#[trigger] model.forward[i]).upstreams.len() > 0,
    decreases count,
{
    if count > 0 {
        lemma_rules_have_upstreams(env, rules, (count - 1) as nat);
    }
}

/// The identifiers of the forward rules are places in the list of rules, and
/// they grow, so no two forward rules share one.
pub proof fn law_rule_ids_grow(env: Surroundings, raw: RawConfig)
    ensures
        config_of(env, raw) matches Ok(config) ==> {
            &&& forall|i: int|
                0 <= i < config.rules.forward.len() ==> 0 <= (
                #[trigger] config.rules.forward[i]).id < raw.rules@.len()
            &&& forall|i: int, j: int|
                0 <= i < j < config.rules.forward.len() ==> (#[trigger] config.rules.forward[i]).id
                    < (#[trigger] config.rules.forward[j]).id
        },
{
    lemma_rule_ids_grow(env, raw.rules@, raw.rules@.len());
}

proof fn lemma_rule_ids_grow(env: Surroundings, rules: Seq<RuleConfig>, count: nat)
    ensures
        with_rules(env, rules, count) matches Ok(model) ==> {
            &&& forall|i: int|
                0 <= i < model.forward.len() ==> 0 <= (#[trigger] model.forward[i]).id < count
            &&& forall|i: int, j: int|
                0 <= i < j < model.forward.len() ==> (#[trigger] model.forward[i]).id < (
                #[trigger] model.forward[j]).id
        },
    decreases count,
{
    if count > 0 {
        lemma_rule_ids_grow(env, rules, (count - 1) as nat);
    }
}

/// The private suffixes.
pub open spec fn is_private_suffix(domain: Seq<char>) -> bool {
    ||| domain == "lan"@
    ||| domain == "local"@
    ||| domain == "home.arpa"@
    ||| domain == "corp"@
    ||| domain == "internal"@
}

/// Names under the suffixes for private use are blocked in every configuration.
pub proof fn law_private_names_are_blocked(
    env: Surroundings,
    raw: RawConfig,
    suffix: Seq<char>,
    name: Seq<char>,
)
    requires
        is_private_suffix(suffix),
        covers(suffix, name),
    ensures
        config_of(env, raw) matches Ok(config) ==> lookup(config.rules.blocked, name) is Some,
{
    if let Ok(config) = config_of(env, raw) {
        law_lookup_is_longest_suffix(config.rules.blocked, name);
        assert(config.rules.blocked.contains_key(suffix));
    }
}

} // verus!
