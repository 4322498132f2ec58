//! What holds of the rules that a configuration comes to.
use crate::addr::Ipv4Addr;
use crate::config::{RawConfig, RuleConfig, Surroundings};
use crate::domain_file::{file_items, DomainFileKind, DomainItem};
use crate::rules::{
    config_of, with_domain_files, with_domains, with_local_files, with_locals, with_rules,
    ForwardModel,
};
use crate::server::suffix_rule;
use crate::text::texts;
use crate::trie::{covers, law_lookup_is_longest_suffix, lookup};
use vstd::prelude::*;

verus! {

/// Whether a file lists a domain.
pub open spec fn lists(env: Surroundings, file: Seq<char>, domain: Seq<char>) -> bool {
    &&& env.files@.contains_key(file)
    &&& file_items(env.files@[file]@, DomainFileKind::Domain) matches Ok(items) && items.contains(
        DomainItem::Domain(domain),
    )
}

/// Whether a file gives a domain an address.
pub open spec fn lists_local(env: Surroundings, file: Seq<char>, domain: Seq<char>) -> bool {
    &&& env.files@.contains_key(file)
    &&& file_items(env.files@[file]@, DomainFileKind::DomainWithIpv4) matches Ok(items) && exists|
        ip: Ipv4Addr,
    | #[trigger] items.contains(DomainItem::DomainWithIpv4 { domain, ip })
}

/// Whether one of the files of a rule lists a domain.
pub open spec fn rule_lists(env: Surroundings, rule: RuleConfig, domain: Seq<char>) -> bool {
    exists|f: int|
        0 <= f < rule.domain_files@.len() && #[trigger] lists(
            env,
            texts(rule.domain_files@)[f],
            domain,
        )
}

/// Whether one of the files of a rule gives a domain an address.
pub open spec fn rule_lists_local(env: Surroundings, rule: RuleConfig, domain: Seq<char>) -> bool {
    exists|f: int|
        0 <= f < rule.domain_files@.len() && #[trigger] lists_local(
            env,
            texts(rule.domain_files@)[f],
            domain,
        )
}

proof fn lemma_domains_are_added(
    m: Map<Seq<char>, ()>,
    items: Seq<DomainItem>,
    count: nat,
    domain: Seq<char>,
)
    requires
        count <= items.len(),
    ensures
        m.contains_key(domain) || items.take(count as int).contains(DomainItem::Domain(domain))
            ==> with_domains(m, items, count).contains_key(domain),
    decreases count,
{
    if count > 0 {
        let last = (count - 1) as nat;
        lemma_domains_are_added(m, items, last, domain);
        let wanted = DomainItem::Domain(domain);
        if items.take(count as int).contains(wanted) && items[last as int] != wanted {
            let i = choose|i: int| 0 <= i < count && items.take(count as int)[i] == wanted;
            assert(items.take(last as int)[i] == wanted);
        }
    }
}

proof fn lemma_domain_files_are_added(
    env: Surroundings,
    m: Map<Seq<char>, ()>,
    files: Seq<Seq<char>>,
    count: nat,
    domain: Seq<char>,
)
    requires
        count <= files.len(),
    ensures
        with_domain_files(env, m, files, count) matches Ok(all) ==> {
            &&& m.contains_key(domain) ==> all.contains_key(domain)
            &&& forall|f: int|
                0 <= f < count && #[trigger] lists(env, files[f], domain) ==> all.contains_key(
                    domain,
                )
        },
    decreases count,
{
    if count > 0 {
        let last = (count - 1) as nat;
        lemma_domain_files_are_added(env, m, files, last, domain);
        if with_domain_files(env, m, files, count) is Ok {
            let before = with_domain_files(env, m, files, last)->Ok_0;
            let file = files[last as int];
            let items = file_items(env.files@[file]@, DomainFileKind::Domain)->Ok_0;
            lemma_domains_are_added(before, items, items.len(), domain);
            assert(items.take(items.len() as int) =~= items);
        }
    }
}

proof fn lemma_locals_are_added(
    m: Map<Seq<char>, Ipv4Addr>,
    items: Seq<DomainItem>,
    count: nat,
    domain: Seq<char>,
)
    requires
        count <= items.len(),
    ensures
        m.contains_key(domain) ==> with_locals(m, items, count).contains_key(domain),
        forall|ip: Ipv4Addr| #[trigger]
            items.take(count as int).contains(DomainItem::DomainWithIpv4 { domain, ip })
                ==> with_locals(m, items, count).contains_key(domain),
    decreases count,
{
    if count > 0 {
        let last = (count - 1) as nat;
        lemma_locals_are_added(m, items, last, domain);
        assert forall|ip: Ipv4Addr| #[trigger]
            items.take(count as int).contains(
                DomainItem::DomainWithIpv4 { domain, ip },
            ) implies with_locals(m, items, count).contains_key(domain) by {
            let wanted = DomainItem::DomainWithIpv4 { domain, ip };
            if items[last as int] != wanted {
                let i = choose|i: int| 0 <= i < count && items.take(count as int)[i] == wanted;
                assert(items.take(last as int)[i] == wanted);
                assert(items.take(last as int).contains(wanted));
            }
        }
    }
}

proof fn lemma_local_files_are_added(
    env: Surroundings,
    m: Map<Seq<char>, Ipv4Addr>,
    files: Seq<Seq<char>>,
    count: nat,
    domain: Seq<char>,
)
    requires
        count <= files.len(),
    ensures
        with_local_files(env, m, files, count) matches Ok(all) ==> {
            &&& m.contains_key(domain) ==> all.contains_key(domain)
            &&& forall|f: int|
                0 <= f < count && #[trigger] lists_local(env, files[f], domain)
                    ==> all.contains_key(domain)
        },
    decreases count,
{
    if count > 0 {
        let last = (count - 1) as nat;
        lemma_local_files_are_added(env, m, files, last, domain);
        if with_local_files(env, m, files, count) is Ok {
            let before = with_local_files(env, m, files, last)->Ok_0;
            let file = files[last as int];
            let items = file_items(env.files@[file]@, DomainFileKind::DomainWithIpv4)->Ok_0;
            lemma_locals_are_added(before, items, items.len(), domain);
            assert(items.take(items.len() as int) =~= items);
        }
    }
}

/// What the first rules come to stays part of what more of them come to.
proof fn lemma_rules_only_grow(
    env: Surroundings,
    rules: Seq<RuleConfig>,
    few: nat,
    many: nat,
    domain: Seq<char>,
)
    requires
        few <= many,
        with_rules(env, rules, many) is Ok,
    ensures
        with_rules(env, rules, few) is Ok,
        ({
            let a = with_rules(env, rules, few)->Ok_0;
            let b = with_rules(env, rules, many)->Ok_0;
            &&& a.forward.len() <= b.forward.len()
            &&& forall|i: int| 0 <= i < a.forward.len() ==> #[trigger] b.forward[i] == a.forward[i]
            &&& a.blocked.contains_key(domain) ==> b.blocked.contains_key(domain)
            &&& a.local.contains_key(domain) ==> b.local.contains_key(domain)
        }),
    decreases many,
{
    if few < many {
        let last = (many - 1) as nat;
        lemma_rules_only_grow(env, rules, few, last, domain);
        let before = with_rules(env, rules, last)->Ok_0;
        let rule = rules[last as int];
        let files = texts(rule.domain_files@);
        lemma_domain_files_are_added(env, before.blocked, files, files.len(), domain);
        lemma_local_files_are_added(env, before.local, files, files.len(), domain);
    }
}

/// The places of the first rules are found first.
proof fn lemma_suffix_rule_is_found(
    rules: Seq<ForwardModel>,
    name: Seq<char>,
    from: int,
    place: int,
)
    requires
        0 <= from <= place < rules.len() <= usize::MAX,
        lookup(rules[place].suffixes, name) is Some,
    ensures
        suffix_rule(rules, name, from) matches Some(i) && from <= i <= place,
    decreases place - from,
{
    if lookup(rules[from].suffixes, name) is None {
        lemma_suffix_rule_is_found(rules, name, from + 1, place);
    }
}

/// A name under a domain that a file of a forward rule lists is matched by that
/// rule, and so falls under it or under a forward rule before it.
pub proof fn law_listed_names_follow_their_rule(
    env: Surroundings,
    raw: RawConfig,
    rule: int,
    domain: Seq<char>,
    name: Seq<char>,
)
    requires
        config_of(env, raw) is Ok,
        config_of(env, raw)->Ok_0.rules.forward.len() <= usize::MAX,
        0 <= rule < raw.rules@.len(),
        raw.rules@[rule].kind is Forward,
        rule_lists(env, raw.rules@[rule], domain),
        covers(domain, name),
    ensures
        ({
            let forward = config_of(env, raw)->Ok_0.rules.forward;
            exists|place: int|
                {
                    &&& 0 <= place < forward.len()
                    &&& (#[trigger] forward[place]).id == rule
                    &&& lookup(forward[place].suffixes, name) is Some
                    &&& suffix_rule(forward, name, 0) matches Some(i) && i <= place
                }
        }),
{
    let rules = raw.rules@;
    let count = (rule + 1) as nat;
    let written = rules[rule];
    let files = texts(written.domain_files@);
    lemma_rules_only_grow(env, rules, count, rules.len(), domain);
    lemma_rules_only_grow(env, rules, rule as nat, count, domain);
    let before = with_rules(env, rules, rule as nat)->Ok_0;
    let after = with_rules(env, rules, count)->Ok_0;
    let place = before.forward.len() as int;
    let forward = config_of(env, raw)->Ok_0.rules.forward;
    lemma_domain_files_are_added(env, Map::empty(), files, files.len(), domain);
    let f = choose|f: int|
        0 <= f < written.domain_files@.len() && #[trigger] lists(env, files[f], domain);
    assert(lists(env, files[f], domain));
    assert(after.forward[place].suffixes.contains_key(domain));
    assert(forward[place] == after.forward[place]);
    law_lookup_is_longest_suffix(forward[place].suffixes, name);
    lemma_suffix_rule_is_found(forward, name, 0, place);
    assert(forward[place].id == rule);
}

/// A name under a domain that a file of a block rule lists is blocked.
pub proof fn law_listed_names_are_blocked(
    env: Surroundings,
    raw: RawConfig,
    rule: int,
    domain: Seq<char>,
    name: Seq<char>,
)
    requires
        config_of(env, raw) is Ok,
        0 <= rule < raw.rules@.len(),
        raw.rules@[rule].kind is Block,
        rule_lists(env, raw.rules@[rule], domain),
        covers(domain, name),
    ensures
        lookup(config_of(env, raw)->Ok_0.rules.blocked, name) is Some,
{
    let rules = raw.rules@;
    let count = (rule + 1) as nat;
    let written = rules[rule];
    let files = texts(written.domain_files@);
    lemma_rules_only_grow(env, rules, count, rules.len(), domain);
    lemma_rules_only_grow(env, rules, rule as nat, count, domain);
    let before = with_rules(env, rules, rule as nat)->Ok_0;
    lemma_domain_files_are_added(env, before.blocked, files, files.len(), domain);
    let f = choose|f: int|
        0 <= f < written.domain_files@.len() && #[trigger] lists(env, files[f], domain);
    assert(lists(env, files[f], domain));
    let blocked = config_of(env, raw)->Ok_0.rules.blocked;
    assert(with_rules(env, rules, rules.len())->Ok_0.blocked.contains_key(domain));
    assert(blocked.contains_key(domain));
    law_lookup_is_longest_suffix(blocked, name);
}

/// A name under a domain to which a file of a local rule gives an address has
/// one.
pub proof fn law_listed_names_are_local(
    env: Surroundings,
    raw: RawConfig,
    rule: int,
    domain: Seq<char>,
    name: Seq<char>,
)
    requires
        config_of(env, raw) is Ok,
        0 <= rule < raw.rules@.len(),
        raw.rules@[rule].kind is Local,
        rule_lists_local(env, raw.rules@[rule], domain),
        covers(domain, name),
    ensures
        lookup(config_of(env, raw)->Ok_0.rules.local, name) is Some,
{
    let rules = raw.rules@;
    let count = (rule + 1) as nat;
    let written = rules[rule];
    let files = texts(written.domain_files@);
    lemma_rules_only_grow(env, rules, count, rules.len(), domain);
    lemma_rules_only_grow(env, rules, rule as nat, count, domain);
    let before = with_rules(env, rules, rule as nat)->Ok_0;
    lemma_local_files_are_added(env, before.local, files, files.len(), domain);
    let f = choose|f: int|
        0 <= f < written.domain_files@.len() && #[trigger] lists_local(env, files[f], domain);
    assert(lists_local(env, files[f], domain));
    let local = config_of(env, raw)->Ok_0.rules.local;
    assert(local.contains_key(domain));
    law_lookup_is_longest_suffix(local, name);
}

} // verus!
