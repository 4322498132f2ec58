//! The targets of aliases, which follow the rule of the name that they were
//! found under for some time.
use crate::cache::NANOS;
use crate::trie::{law_insert_is_seen, lookup, DomainTrie};
use vstd::prelude::*;

verus! {

/// The seconds for which a target is remembered.
pub const EXTRA_DOMAIN_TTL: u64 = 3600;

/// The seconds between two rounds in which expired targets are forgotten.
pub const CLEANUP_INTERVAL: u64 = 300;

/// The rule of a target, and when it is forgotten, in nanoseconds.
#[derive(Clone, Copy, Debug, PartialEq, Eq, Structural)]
pub struct ExtraDomainEntry {
    pub rule_id: usize,
    pub expires_at: u128,
}

/// What is remembered now about a rule.
pub open spec fn entry_at(rule_id: usize, now: u64) -> ExtraDomainEntry {
    ExtraDomainEntry { rule_id, expires_at: (now + EXTRA_DOMAIN_TTL * NANOS) as u128 }
}

/// The targets that have not expired.
pub open spec fn unexpired(m: Map<Seq<char>, ExtraDomainEntry>, now: u64) -> Map<
    Seq<char>,
    ExtraDomainEntry,
> {
    Map::new(|k: Seq<char>| m.contains_key(k) && m[k].expires_at > now, |k: Seq<char>| m[k])
}

/// The rule of the longest suffix of a name that is remembered.
pub open spec fn learned_rule(
    m: Map<Seq<char>, ExtraDomainEntry>,
    name: Seq<char>,
    now: u64,
) -> Option<usize> {
    match lookup(unexpired(m, now), name) {
        Some(entry) => Some(entry.rule_id),
        None => None,
    }
}

/// The targets that are remembered.
pub struct ExtraDomains {
    trie: DomainTrie<ExtraDomainEntry>,
}

impl View for ExtraDomains {
    type V = Map<Seq<char>, ExtraDomainEntry>;

    closed spec fn view(&self) -> Map<Seq<char>, ExtraDomainEntry> {
        self.trie@
    }
}

impl ExtraDomains {
    /// No targets.
    pub fn init() -> (r: ExtraDomains)
        ensures
            r@ == Map::<Seq<char>, ExtraDomainEntry>::empty(),
    {
        ExtraDomains { trie: DomainTrie::new() }
    }

    /// Remembers the rule of a target.
    pub fn add_domain(&mut self, domain: &str, rule_id: usize, now: u64)
        ensures
            final(self)@ == old(self)@.insert(domain@, entry_at(rule_id, now)),
    {
        let expires_at: u128 = now as u128 + EXTRA_DOMAIN_TTL as u128 * NANOS;
        self.trie.insert(domain, ExtraDomainEntry { rule_id, expires_at });
    }

    /// Forgets the targets that have expired.
    pub fn cleanup_expired(&mut self, now: u64)
        ensures
            final(self)@ == unexpired(old(self)@, now),
    {
        let mut fresh: DomainTrie<ExtraDomainEntry> = DomainTrie::new();
        let entries: Vec<&(String, ExtraDomainEntry)> = self.trie.iter();
        let ghost m = self.trie@;
        let mut i: usize = 0;
        while i < entries.len()
            invariant
                i <= entries@.len(),
                forall|k: int|
                    0 <= k < entries@.len() ==> m.contains_key((#[trigger] entries@[k]).0@)
                        && m[entries@[k].0@] == entries@[k].1,
                forall|name: Seq<char>| #[trigger]
                    fresh@.contains_key(name) ==> m.contains_key(name) && m[name].expires_at > now
                        && fresh@[name] == m[name],
                forall|k: int|
                    0 <= k < i && entries@[k].1.expires_at > now ==> fresh@.contains_key(
                        (#[trigger] entries@[k]).0@,
                    ),
            decreases entries@.len() - i,
        {
            if entries[i].1.expires_at > now as u128 {
                fresh.insert(entries[i].0.as_str(), entries[i].1);
            }
            i += 1;
        }
        proof {
            assert forall|name: Seq<char>|
                m.contains_key(name) && m[name].expires_at > now implies (
            #[trigger] fresh@.contains_key(name)) by {
                let k = choose|k: int| 0 <= k < entries@.len() && entries@[k].0@ == name;
                assert(fresh@.contains_key(entries@[k].0@));
            }
            assert(fresh@ =~= unexpired(m, now));
        }
        self.trie = fresh;
    }

    /// Gives the rule of the longest suffix of a name that is remembered, once
    /// the expired targets are forgotten.
    pub fn match_domain(&mut self, domain: &str, now: u64) -> (r: Option<usize>)
        ensures
            r == learned_rule(old(self)@, domain@, now),
            final(self)@ == unexpired(old(self)@, now),
    {
        self.cleanup_expired(now);
        match self.trie.get(domain) {
            Some(entry) => Some(entry.rule_id),
            None => None,
        }
    }
}

/// A target follows its rule until it is forgotten.
pub proof fn law_target_follows_its_rule(
    m: Map<Seq<char>, ExtraDomainEntry>,
    domain: Seq<char>,
    rule_id: usize,
    now: u64,
    later: u64,
)
    requires
        now <= later < now + EXTRA_DOMAIN_TTL * NANOS,
    ensures
        learned_rule(m.insert(domain, entry_at(rule_id, now)), domain, later) == Some(rule_id),
{
    let entry = entry_at(rule_id, now);
    let after = m.insert(domain, entry);
    law_insert_is_seen(unexpired(m, later), domain, entry, domain);
    assert(unexpired(after, later) =~= unexpired(m, later).insert(domain, entry));
}

/// A target that is not learned again is forgotten: names then find what they
/// find without it.
pub proof fn law_target_is_forgotten(
    m: Map<Seq<char>, ExtraDomainEntry>,
    domain: Seq<char>,
    rule_id: usize,
    now: u64,
    later: u64,
    name: Seq<char>,
)
    requires
        later >= now + EXTRA_DOMAIN_TTL * NANOS,
    ensures
        learned_rule(m.insert(domain, entry_at(rule_id, now)), name, later) == learned_rule(
            m.remove(domain),
            name,
            later,
        ),
{
    assert(unexpired(m.insert(domain, entry_at(rule_id, now)), later) =~= unexpired(
        m.remove(domain),
        later,
    ));
}

} // verus!
