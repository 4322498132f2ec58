//! What holds of the way that a query takes: who answers it, and who is asked.
use crate::cache::{
    fetched, key_of, keys_differ, law_fetch_keeps_the_others, law_fetch_moves_or_drops,
    law_fetch_of_nothing_changes_nothing, law_keys_tell_questions_apart,
    law_only_what_is_kept_is_given, law_put_drops_only_the_least_recently_used, same_but_for_case,
    with_entry, Entry,
};
use crate::dns::{
    first_question, lemma_questions_advance, local_record, question_end, questions_fit, reply_to,
    Question, DNS_TYPE_AAAA, LOCAL_TTL,
};
use crate::extra_domain::{learned_rule, unexpired, ExtraDomainEntry};
use crate::message_laws::law_reply_answers_its_query;
use crate::rules::{ConfigModel, ForwardModel};
use crate::server::{
    blocks, decided, kept_after, learned_after, learned_from, resolved, rule_at, rule_for,
    rule_with_id, servers_for, subnet_for, suffix_rule, DecisionModel, OutcomeModel, PendingModel,
    ServerError,
};
use crate::trie::{covers, law_lookup_is_longest_suffix, lookup};
use crate::wire::{be16, DnsError};
use vstd::prelude::*;

verus! {

/// Whether a domain among some covers a name.
pub open spec fn some_domain_covers<V>(domains: Map<Seq<char>, V>, name: Seq<char>) -> bool {
    exists|key: Seq<char>| #[trigger] domains.contains_key(key) && covers(key, name)
}

proof fn lemma_covered_is_found<V>(domains: Map<Seq<char>, V>, name: Seq<char>)
    ensures
        lookup(domains, name) is Some <==> some_domain_covers(domains, name),
{
    law_lookup_is_longest_suffix(domains, name);
}

proof fn lemma_suffix_rule_from(rules: Seq<ForwardModel>, name: Seq<char>, from: int)
    requires
        0 <= from <= rules.len() <= usize::MAX,
    ensures
        suffix_rule(rules, name, from) matches Some(i) ==> {
            &&& from <= i < rules.len()
            &&& some_domain_covers(rules[i as int].suffixes, name)
            &&& forall|j: int|
                from <= j < i ==> !some_domain_covers((#[trigger] rules[j]).suffixes, name)
        },
        suffix_rule(rules, name, from) is None ==> forall|j: int|
            from <= j < rules.len() ==> !some_domain_covers((#[trigger] rules[j]).suffixes, name),
    decreases rules.len() - from,
{
    if from < rules.len() {
        lemma_covered_is_found(rules[from].suffixes, name);
        if lookup(rules[from].suffixes, name) is None {
            lemma_suffix_rule_from(rules, name, from + 1);
        }
    }
}

/// The forward rule that matches a name is one with a domain that covers the
/// name, and no rule before it has one. Where no rule matches, none has one.
pub proof fn law_first_covering_rule_matches(rules: Seq<ForwardModel>, name: Seq<char>)
    requires
        rules.len() <= usize::MAX,
    ensures
        suffix_rule(rules, name, 0) matches Some(i) ==> {
            &&& i < rules.len()
            &&& some_domain_covers(rules[i as int].suffixes, name)
            &&& forall|j: int|
                0 <= j < i ==> !some_domain_covers((#[trigger] rules[j]).suffixes, name)
        },
        suffix_rule(rules, name, 0) is None ==> forall|j: int|
            0 <= j < rules.len() ==> !some_domain_covers((#[trigger] rules[j]).suffixes, name),
{
    lemma_suffix_rule_from(rules, name, 0);
}

proof fn lemma_rule_with_id_from(rules: Seq<ForwardModel>, id: usize, from: int)
    requires
        0 <= from <= rules.len() <= usize::MAX,
    ensures
        rule_with_id(rules, id, from) matches Some(i) ==> {
            &&& from <= i < rules.len()
            &&& rules[i as int].id == id
            &&& forall|j: int| from <= j < i ==> (#[trigger] rules[j]).id != id
        },
        rule_with_id(rules, id, from) is None ==> forall|j: int|
            from <= j < rules.len() ==> (#[trigger] rules[j]).id != id,
    decreases rules.len() - from,
{
    if from < rules.len() && rules[from].id != id {
        lemma_rule_with_id_from(rules, id, from + 1);
    }
}

/// A rule that is found by an identifier has it, and no rule before it does.
/// Where none is found, none has it.
pub proof fn law_rule_is_found_by_its_id(rules: Seq<ForwardModel>, id: usize)
    requires
        rules.len() <= usize::MAX,
    ensures
        rule_with_id(rules, id, 0) matches Some(i) ==> {
            &&& i < rules.len()
            &&& rules[i as int].id == id
            &&& forall|j: int| 0 <= j < i ==> (#[trigger] rules[j]).id != id
        },
        rule_with_id(rules, id, 0) is None ==> forall|j: int|
            0 <= j < rules.len() ==> (#[trigger] rules[j]).id != id,
{
    lemma_rule_with_id_from(rules, id, 0);
}

/// Whether a target that is remembered and has not expired covers a name.
pub open spec fn remembered(
    m: Map<Seq<char>, ExtraDomainEntry>,
    key: Seq<char>,
    name: Seq<char>,
    now: u64,
) -> bool {
    m.contains_key(key) && m[key].expires_at > now && covers(key, name)
}

/// A name follows the rule of the longest target that covers it, is remembered
/// and has not expired. Without such a target it follows none.
pub proof fn law_longest_remembered_target_counts(
    m: Map<Seq<char>, ExtraDomainEntry>,
    name: Seq<char>,
    now: u64,
)
    ensures
        learned_rule(m, name, now) matches Some(id) ==> exists|key: Seq<char>|
            {
                &&& #[trigger] remembered(m, key, name, now)
                &&& m[key].rule_id == id
                &&& forall|other: Seq<char>| #[trigger]
                    remembered(m, other, name, now) ==> other.len() <= key.len()
            },
        learned_rule(m, name, now) is None ==> forall|key: Seq<char>|
            !#[trigger] remembered(m, key, name, now),
{
    let live = unexpired(m, now);
    law_lookup_is_longest_suffix(live, name);
    assert forall|key: Seq<char>| #[trigger]
        remembered(m, key, name, now) implies live.contains_key(key) && covers(key, name) by {}
    if learned_rule(m, name, now) is Some {
        let entry = lookup(live, name)->Some_0;
        let key = choose|key: Seq<char>| #[trigger]
            live.contains_key(key) && covers(key, name) && live[key] == entry && forall|
                other: Seq<char>,
            | #[trigger]
                live.contains_key(other) && covers(other, name) ==> other.len() <= key.len();
        assert(remembered(m, key, name, now));
    }
}

/// Forgetting what has expired keeps every target that has not, with its rule and
/// its time, and no other.
pub proof fn law_only_expired_targets_are_forgotten(
    m: Map<Seq<char>, ExtraDomainEntry>,
    now: u64,
    key: Seq<char>,
)
    ensures
        unexpired(m, now).contains_key(key) <==> m.contains_key(key) && m[key].expires_at > now,
        unexpired(m, now).contains_key(key) ==> unexpired(m, now)[key] == m[key],
{
}

/// The rule of a name is the first one with a domain that covers it. Only where
/// there is none does the name follow the rule of a remembered target, and where
/// there is no such target or no rule with its identifier, none.
pub proof fn law_listed_domains_come_before_remembered_targets(
    rules: Seq<ForwardModel>,
    learned: Map<Seq<char>, ExtraDomainEntry>,
    name: Seq<char>,
    now: u64,
    i: int,
)
    requires
        rules.len() <= usize::MAX,
    ensures
        0 <= i < rules.len() && some_domain_covers(rules[i].suffixes, name) && (forall|j: int|
            0 <= j < i ==> !some_domain_covers((#[trigger] rules[j]).suffixes, name)) ==> rule_for(
            rules,
            learned,
            name,
            now,
        ) == Some(i as usize),
        (forall|j: int|
            0 <= j < rules.len() ==> !some_domain_covers((#[trigger] rules[j]).suffixes, name))
            ==> {
            &&& rule_for(rules, learned, name, now) matches Some(r) ==> {
                &&& r < rules.len()
                &&& learned_rule(learned, name, now) matches Some(id) && rules[r as int].id == id
                &&& forall|j: int|
                    0 <= j < r ==> (#[trigger] rules[j]).id != rules[r as int].id
            }
            &&& rule_for(rules, learned, name, now) is None ==> (learned_rule(
                learned,
                name,
                now,
            ) matches Some(id) ==> forall|j: int|
                0 <= j < rules.len() ==> (#[trigger] rules[j]).id != id)
        },
{
    law_first_covering_rule_matches(rules, name);
    if let Some(id) = learned_rule(learned, name, now) {
        law_rule_is_found_by_its_id(rules, id);
    }
    if let Some(k) = suffix_rule(rules, name, 0) {
        if 0 <= i < rules.len() && some_domain_covers(rules[i].suffixes, name) && (forall|j: int|
            0 <= j < i ==> !some_domain_covers((#[trigger] rules[j]).suffixes, name)) {
            if k < i {
                assert(!some_domain_covers(rules[k as int].suffixes, name));
            }
            assert(k == i);
        }
        assert(some_domain_covers(rules[k as int].suffixes, name));
    }
}

/// A query goes to one of the upstreams of its rule, or of the default servers
/// where it has no rule. It carries the subnet of its rule, or the one for all
/// where its rule has none or it has no rule.
pub proof fn law_rule_says_who_is_asked(config: ConfigModel, rule: Option<usize>)
    ensures
        rule matches Some(i) && i < config.rules.forward.len() ==> {
            let r = config.rules.forward[rule->0 as int];
            &&& servers_for(config, rule) == r.upstreams
            &&& subnet_for(config, rule) == (if r.subnet is Some {
                r.subnet
            } else {
                config.subnet
            })
        },
        rule is None ==> servers_for(config, rule) == config.default_server && subnet_for(
            config,
            rule,
        ) == config.subnet,
{
}

/// Whether nothing that has not expired is kept for a question.
pub open spec fn nothing_kept(kept: Seq<Entry>, info: Question, now: u64) -> bool {
    forall|k: int| 0 <= k < kept.len() && (#[trigger] kept[k]).0 == key_of(info) ==> kept[k].1.1
        <= now
}

proof fn lemma_nothing_is_fetched(kept: Seq<Entry>, info: Question, now: u64)
    requires
        keys_differ(kept),
    ensures
        nothing_kept(kept, info, now) <==> fetched(kept, key_of(info), now) is None,
{
    law_only_what_is_kept_is_given(kept, key_of(info), now);
    if let Some((bytes, seconds)) = fetched(kept, key_of(info), now) {
        let k = choose|i: int|
            {
                &&& 0 <= i < kept.len()
                &&& (#[trigger] kept[i]).0 == key_of(info)
                &&& kept[i].1.0 == bytes
                &&& now < kept[i].1.1
            };
        assert(!nothing_kept(kept, info, now));
    }
}

/// A query whose name no local and no blocked domain covers and for which nothing
/// is kept is resolved under its rule, as it came and for what it asks, unless it
/// asks for an IPv6 address and its rule blocks those. Then the reply has the
/// identifier and the questions of the query, no error, and nothing else.
pub proof fn law_other_queries_are_resolved(
    config: ConfigModel,
    kept: Seq<Entry>,
    learned: Map<Seq<char>, ExtraDomainEntry>,
    query: Seq<u8>,
    now: u64,
)
    requires
        config.rules.forward.len() <= usize::MAX,
        keys_differ(kept),
        first_question(query) is Ok,
        !some_domain_covers(config.rules.local, first_question(query)->Ok_0.qname),
        !some_domain_covers(config.rules.blocked, first_question(query)->Ok_0.qname),
        nothing_kept(kept, first_question(query)->Ok_0, now),
    ensures
        ({
            let info = first_question(query)->Ok_0;
            let rule = rule_for(config.rules.forward, learned, info.qname, now);
            let closed = info.qtype == DNS_TYPE_AAAA && (rule matches Some(i)
                && config.rules.forward[i as int].block_aaaa);
            &&& rule matches Some(i) ==> i < config.rules.forward.len()
            &&& !closed ==> (decided(config, kept, learned, query, now) matches
                DecisionModel::Resolve(pending) && pending.query == query && pending.info == info
                && pending.current == info && pending.rule == rule && pending.chain.len() == 0
                && pending.depth == 0)
            &&& closed && question_end(query) is Ok && questions_fit(query) && be16(query, 4) <= 255
                ==> (decided(config, kept, learned, query, now) matches DecisionModel::Reply(reply)
                && bare_reply(query, reply, 0))
        }),
{
    let info = first_question(query)->Ok_0;
    lemma_covered_is_found(config.rules.local, info.qname);
    lemma_covered_is_found(config.rules.blocked, info.qname);
    lemma_nothing_is_fetched(kept, info, now);
    let rule = rule_for(config.rules.forward, learned, info.qname, now);
    law_first_covering_rule_matches(config.rules.forward, info.qname);
    if let Some(id) = learned_rule(learned, info.qname, now) {
        law_rule_is_found_by_its_id(config.rules.forward, id);
    }
    if blocks(config.rules.forward, rule, info) && question_end(query) is Ok && questions_fit(query)
        && be16(query, 4) <= 255 {
        lemma_bare_reply(query, 0);
    }
}

/// Whether a reply has the identifier, the questions and the wish for recursion
/// of a query, is marked as a response with a code, and holds nothing else.
pub open spec fn bare_reply(query: Seq<u8>, reply: Seq<u8>, code: int) -> bool {
    let end = question_end(query)->Ok_0;
    &&& reply.len() == end
    &&& be16(reply, 0) == be16(query, 0)
    &&& reply[2] == 0x80 + query[2] % 2
    &&& reply[3] == 0x80 + code
    &&& be16(reply, 4) == be16(query, 4)
    &&& be16(reply, 6) == 0
    &&& be16(reply, 8) == 0
    &&& be16(reply, 10) == 0
    &&& reply.subrange(12, end) == query.subrange(12, end)
}

proof fn lemma_bare_reply(query: Seq<u8>, code: u8)
    requires
        query.len() >= 12,
        question_end(query) is Ok,
        questions_fit(query),
        be16(query, 4) <= 255,
        code < 16,
    ensures
        reply_to(query, code, 0, Seq::empty()) matches Ok(reply) && bare_reply(
            query,
            reply,
            code as int,
        ),
{
    law_reply_answers_its_query(query, code, 0, Seq::empty());
    let reply = reply_to(query, code, 0, Seq::empty())->Ok_0;
    lemma_questions_advance(query, 12, be16(query, 4) as nat);
    assert(reply.skip(question_end(query)->Ok_0).len() == 0);
}

/// A name that a blocked domain and no local one covers does not exist, whatever
/// is kept or learned: the reply has that code, and the questions of the query
/// alone. Nothing kept or learned changes.
pub proof fn law_blocked_names_get_a_bare_reply(
    config: ConfigModel,
    kept: Seq<Entry>,
    learned: Map<Seq<char>, ExtraDomainEntry>,
    query: Seq<u8>,
    now: u64,
)
    requires
        first_question(query) is Ok,
        !some_domain_covers(config.rules.local, first_question(query)->Ok_0.qname),
        some_domain_covers(config.rules.blocked, first_question(query)->Ok_0.qname),
        question_end(query) is Ok,
        questions_fit(query),
        be16(query, 4) <= 255,
    ensures
        decided(config, kept, learned, query, now) matches DecisionModel::Reply(reply)
            && bare_reply(query, reply, 3),
        kept_after(config, kept, query, now) == kept,
        learned_after(config, kept, learned, query, now) == learned,
{
    let info = first_question(query)->Ok_0;
    lemma_covered_is_found(config.rules.local, info.qname);
    lemma_covered_is_found(config.rules.blocked, info.qname);
    lemma_bare_reply(query, 3);
}

/// A name that a local domain covers is answered with the address of the longest
/// such domain, blocked or not and whatever is kept or learned: the reply has the
/// identifier and the questions of the query, no error, and behind them one record
/// of that address that is owned by the first question.
pub proof fn law_local_names_get_their_address(
    config: ConfigModel,
    kept: Seq<Entry>,
    learned: Map<Seq<char>, ExtraDomainEntry>,
    query: Seq<u8>,
    now: u64,
    domain: Seq<char>,
)
    requires
        first_question(query) is Ok,
        config.rules.local.contains_key(domain),
        covers(domain, first_question(query)->Ok_0.qname),
        forall|other: Seq<char>| #[trigger]
            config.rules.local.contains_key(other) && covers(
                other,
                first_question(query)->Ok_0.qname,
            ) ==> other.len() <= domain.len(),
        question_end(query) is Ok,
        questions_fit(query),
        be16(query, 4) <= 255,
    ensures
        ({
            let end = question_end(query)->Ok_0;
            let ip = config.rules.local[domain];
            decided(config, kept, learned, query, now) matches DecisionModel::Reply(reply)
                && be16(reply, 0) == be16(query, 0) && reply[2] == 0x80 + query[2] % 2 && reply[3]
                == 0x80 && be16(reply, 4) == be16(query, 4) && be16(reply, 6) == be16(query, 4)
                && be16(reply, 8) == 0 && be16(reply, 10) == 0 && reply.subrange(12, end)
                == query.subrange(12, end) && reply.skip(end) == seq![0xC0u8, 12u8, 0u8, 1u8, 0u8,
                1u8, 0u8, 0u8, 0u8, 60u8, 0u8, 4u8] + ip.bytes()
        }),
        kept_after(config, kept, query, now) == kept,
        learned_after(config, kept, learned, query, now) == learned,
{
    let info = first_question(query)->Ok_0;
    law_lookup_is_longest_suffix(config.rules.local, info.qname);
    let ip = lookup(config.rules.local, info.qname)->Some_0;
    let key = choose|key: Seq<char>| #[trigger]
        config.rules.local.contains_key(key) && covers(key, info.qname) && config.rules.local[key]
            == ip && forall|other: Seq<char>| #[trigger]
            config.rules.local.contains_key(other) && covers(other, info.qname) ==> other.len()
                <= key.len();
    lemma_same_suffix(key, domain, info.qname);
    let record = local_record(ip.bytes());
    law_reply_answers_its_query(query, 0, (be16(query, 4) % 256) as u8, record);
    assert(LOCAL_TTL == 60);
    assert(record =~= seq![0xC0u8, 12u8, 0u8, 1u8, 0u8, 1u8, 0u8, 0u8, 0u8, 60u8, 0u8, 4u8]
        + ip.bytes());
}

/// Two domains of the same length that cover a name are the same.
proof fn lemma_same_suffix(a: Seq<char>, b: Seq<char>, name: Seq<char>)
    requires
        covers(a, name),
        covers(b, name),
        a.len() == b.len(),
    ensures
        a == b,
{
    assert(name.skip(0) =~= name);
}

/// A query that cannot be read gets no reply, and says why.
pub proof fn law_unreadable_queries_get_no_reply(
    config: ConfigModel,
    kept: Seq<Entry>,
    learned: Map<Seq<char>, ExtraDomainEntry>,
    query: Seq<u8>,
    now: u64,
    e: DnsError,
)
    requires
        first_question(query) == Err::<Question, DnsError>(e),
    ensures
        decided(config, kept, learned, query, now) == DecisionModel::Fail(ServerError::Message(e)),
        kept_after(config, kept, query, now) == kept,
        learned_after(config, kept, learned, query, now) == learned,
{
}

/// The response to one question is not given for another: what is given for a
/// question of another type or class, or of a name that differs in more than the
/// case of its letters, was given before.
pub proof fn law_responses_are_given_for_their_question(
    kept: Seq<Entry>,
    limit: nat,
    asked: Question,
    value: (Seq<u8>, u128),
    other: Question,
    now: u64,
)
    requires
        keys_differ(kept),
        kept.len() <= limit,
        limit > 0,
        asked.qtype != other.qtype || asked.qclass != other.qclass || !same_but_for_case(
            asked.qname,
            other.qname,
        ),
    ensures
        ({
            let after = with_entry(kept, limit, key_of(asked), value);
            fetched(after, key_of(other), now) matches Some(given) ==> fetched(
                kept,
                key_of(other),
                now,
            ) == Some(given)
        }),
{
    law_keys_tell_questions_apart(asked, other);
    law_put_drops_only_the_least_recently_used(kept, limit, key_of(asked), value, key_of(other));
}

/// The first decision on a query leaves the responses to other questions as they
/// are, and forgets no target that has not expired.
pub proof fn law_deciding_keeps_the_rest(
    config: ConfigModel,
    kept: Seq<Entry>,
    learned: Map<Seq<char>, ExtraDomainEntry>,
    query: Seq<u8>,
    now: u64,
    other: Question,
    target: Seq<char>,
)
    requires
        first_question(query) matches Ok(info) ==> info.qtype != other.qtype || info.qclass
            != other.qclass || !same_but_for_case(info.qname, other.qname),
    ensures
        crate::cache::kept(kept_after(config, kept, query, now), key_of(other))
            == crate::cache::kept(kept, key_of(other)),
        learned.contains_key(target) && learned[target].expires_at > now ==> learned_after(
            config,
            kept,
            learned,
            query,
            now,
        ).contains_key(target) && learned_after(config, kept, learned, query, now)[target]
            == learned[target],
        learned_after(config, kept, learned, query, now).contains_key(target)
            ==> learned.contains_key(target) && learned_after(
            config,
            kept,
            learned,
            query,
            now,
        )[target] == learned[target],
{
    if let Ok(info) = first_question(query) {
        law_keys_tell_questions_apart(info, other);
        law_fetch_keeps_the_others(kept, key_of(info), now, key_of(other));
    }
}

/// A response teaches nothing but the target of an alias that is followed under a
/// rule: that target then has the identifier of the rule, and every other target
/// stays as it was.
pub proof fn law_only_followed_targets_are_learned(
    config: ConfigModel,
    learned: Map<Seq<char>, ExtraDomainEntry>,
    pending: PendingModel,
    response: Seq<u8>,
    now: u64,
    target: Seq<char>,
)
    requires
        rule_at(config.rules.forward, pending.rule) matches Some(rule) ==> 0 <= rule.id
            <= usize::MAX,
    ensures
        ({
            let after = learned_from(config, learned, pending, response, now);
            let new = resolved(config, pending, response) matches OutcomeModel::Follow(next)
                && next.current.qname == target && (pending.rule matches Some(i) && i
                < config.rules.forward.len());
            &&& !new ==> after.contains_key(target) == learned.contains_key(target) && (
            learned.contains_key(target) ==> after[target] == learned[target])
            &&& new ==> after.contains_key(target) && after[target].rule_id
                == config.rules.forward[pending.rule->0 as int].id && after[target].expires_at
                == now + 3600 * 1_000_000_000
        }),
{
}

/// The first decision on a query for a name that is neither local nor blocked counts
/// the response that is kept for it as used, or drops it where it has expired. Where
/// none is given and no listed domain covers the name, every target that has expired
/// is forgotten.
pub proof fn law_deciding_looks_at_what_is_kept(
    config: ConfigModel,
    kept: Seq<Entry>,
    learned: Map<Seq<char>, ExtraDomainEntry>,
    query: Seq<u8>,
    info: Question,
    now: u64,
    i: int,
    target: Seq<char>,
)
    requires
        keys_differ(kept),
        first_question(query) == Ok::<Question, DnsError>(info),
        !some_domain_covers(config.rules.local, info.qname),
        !some_domain_covers(config.rules.blocked, info.qname),
        config.rules.forward.len() <= usize::MAX,
    ensures
        0 <= i < kept.len() && kept[i].0 == key_of(info) ==> {
            let after = kept_after(config, kept, query, now);
            &&& now < kept[i].1.1 ==> after.len() == kept.len() && after[0] == kept[i]
            &&& now >= kept[i].1.1 ==> after.len() == kept.len() - 1 && forall|j: int|
                0 <= j < after.len() ==> (#[trigger] after[j]).0 != key_of(info)
        },
        (forall|j: int| 0 <= j < kept.len() ==> (#[trigger] kept[j]).0 != key_of(info)) && (forall|
            r: int,
        |
            0 <= r < config.rules.forward.len() ==> !some_domain_covers(
                (#[trigger] config.rules.forward[r]).suffixes,
                info.qname,
            )) ==> (learned_after(
            config,
            kept,
            learned,
            query,
            now,
        ).contains_key(target) ==> learned[target].expires_at > now),
{
    lemma_covered_is_found(config.rules.local, info.qname);
    lemma_covered_is_found(config.rules.blocked, info.qname);
    if 0 <= i < kept.len() && kept[i].0 == key_of(info) {
        law_fetch_moves_or_drops(kept, key_of(info), now, i);
        let after = kept_after(config, kept, query, now);
        if now >= kept[i].1.1 {
            assert forall|j: int| 0 <= j < after.len() implies (#[trigger] after[j]).0 != key_of(
                info,
            ) by {
                if j < i {
                    assert(kept[j].0 != kept[i].0);
                } else {
                    assert(after[j] == kept[j + 1]);
                    assert(kept[i].0 != kept[j + 1].0);
                }
            }
        }
    }
    if forall|j: int| 0 <= j < kept.len() ==> (#[trigger] kept[j]).0 != key_of(info) {
        law_fetch_of_nothing_changes_nothing(kept, key_of(info), now);
    }
    law_first_covering_rule_matches(config.rules.forward, info.qname);
}

} // verus!
