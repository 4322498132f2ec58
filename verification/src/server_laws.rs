//! What holds of queries and replies as a whole.
use crate::answers::{analysis, cached_ttl, findings, lemma_findings_end, Answer};
use crate::cache::{deadline_of, fetched, kept, key_of, Entry, NANOS};
use crate::chase_laws::{law_chase_answers_the_query, targets_fit};
use crate::config::{CacheConfig, RawConfig, Surroundings};
use crate::dns::{
    first_question, local_record, question_end, questions_fit, Question, DNS_TYPE_AAAA, LOCAL_TTL,
    RCODE_NXDOMAIN,
};
use crate::extra_domain::{
    law_target_follows_its_rule, learned_rule, ExtraDomainEntry, EXTRA_DOMAIN_TTL,
};
use crate::lifetime::{
    cap_outcome, capped, fixed_part, in_lifetime, law_cap_ignores_the_identifier,
    law_cap_keeps_the_front, law_cap_under_another_identifier, law_lifetimes_replaced,
};
use crate::message_laws::{
    law_local_reply_gives_the_address, law_query_reads_back, law_reply_answers_its_query,
};
use crate::name_laws::{law_read_name_is_writable, plain_name, writable_name};
use crate::rules::{
    config_of, is_private_suffix, law_every_rule_has_an_upstream, law_private_names_are_blocked,
    law_rule_ids_grow, ConfigModel, ForwardModel,
};
use crate::server::{
    blocks, decided, final_reply, fresh, leads_to, learned_from, message_for, reply_from_cache,
    resolved, rule_at, rule_for, rule_with_id, servers_for, subnet_for, suffix_rule, AnsweredModel,
    DecisionModel, OutcomeModel, PendingModel, MAX_DEPTH,
};
use crate::trie::{covers, lookup};
use crate::wire::{be16, be32, name_bytes, name_end, DnsError};
use vstd::prelude::*;

verus! {

/// A reply carries the identifier of its query.
pub proof fn law_reply_carries_the_identifier(
    config: ConfigModel,
    kept: Seq<Entry>,
    learned: Map<Seq<char>, ExtraDomainEntry>,
    query: Seq<u8>,
    now: u64,
)
    ensures
        decided(config, kept, learned, query, now) matches DecisionModel::Reply(reply) ==> be16(
            reply,
            0,
        ) == be16(query, 0),
{
    if let Ok(info) = first_question(query) {
        if lookup(config.rules.local, info.qname) is None && lookup(
            config.rules.blocked,
            info.qname,
        ) is None {
            if let Some((bytes, seconds)) = fetched(kept, key_of(info), now) {
                let response = query.subrange(0, 2) + bytes;
                if cap_outcome(response) is Ok {
                    law_cap_keeps_the_front(response, seconds);
                    let reply = capped(response, seconds);
                    assert(reply[0] == response[0] && reply[1] == response[1]);
                    assert(response[0] == query[0] && response[1] == query[1]);
                }
            }
        }
    }
}

/// Every answer of a reply from a kept response lives for the seconds that are
/// left of its time.
pub proof fn law_kept_answers_live_as_long_as_is_left(
    query: Seq<u8>,
    bytes: Seq<u8>,
    seconds: u32,
    index: nat,
)
    requires
        index < be16(query.subrange(0, 2) + bytes, 6),
    ensures
        reply_from_cache(query, bytes, seconds) matches DecisionModel::Reply(reply) ==> {
            let response = query.subrange(0, 2) + bytes;
            let start = question_end(response)->Ok_0;
            &&& question_end(reply) == question_end(response)
            &&& fixed_part(response, start, index) is Ok
            &&& be32(reply, fixed_part(response, start, index)->Ok_0 + 4) == seconds
        },
{
    let response = query.subrange(0, 2) + bytes;
    if cap_outcome(response) is Ok {
        let start = question_end(response)->Ok_0;
        law_cap_keeps_the_front(response, seconds);
        law_lifetimes_replaced(response, start, be16(response, 6) as nat, seconds);
        assert(fixed_part(response, start, index) is Ok);
    }
}

/// The reply to a query that was resolved carries its identifier, and behind it
/// the response.
pub proof fn law_final_reply_carries_the_identifier(answered: AnsweredModel)
    requires
        answered.query.len() >= 2,
        answered.response.len() >= 2,
    ensures
        be16(final_reply(answered), 0) == be16(answered.query, 0),
        final_reply(answered).skip(2) == answered.response.skip(2),
{
    let reply = final_reply(answered);
    assert(reply[0] == answered.query[0] && reply[1] == answered.query[1]);
    assert(reply.skip(2) =~= answered.response.skip(2));
}

/// A blocked name does not exist, whatever is kept or learned: the reply has
/// that code and no answers.
pub proof fn law_blocked_names_do_not_exist(
    config: ConfigModel,
    kept: Seq<Entry>,
    learned: Map<Seq<char>, ExtraDomainEntry>,
    query: Seq<u8>,
    now: u64,
)
    requires
        first_question(query) matches Ok(info) && lookup(config.rules.local, info.qname) is None
            && lookup(config.rules.blocked, info.qname) is Some,
        question_end(query) is Ok,
        questions_fit(query),
        be16(query, 4) <= 255,
    ensures
        decided(config, kept, learned, query, now) matches DecisionModel::Reply(reply) && reply[3]
            % 16 == RCODE_NXDOMAIN && reply[2] >= 0x80 && be16(reply, 6) == 0 && be16(reply, 0)
            == be16(query, 0) && question_end(reply) == question_end(query),
{
    law_reply_answers_its_query(query, RCODE_NXDOMAIN, 0, Seq::empty());
}

/// Names under the suffixes for private use do not exist unless they are local,
/// in every configuration.
pub proof fn law_private_names_do_not_exist(
    env: Surroundings,
    raw: RawConfig,
    suffix: Seq<char>,
    kept: Seq<Entry>,
    learned: Map<Seq<char>, ExtraDomainEntry>,
    query: Seq<u8>,
    now: u64,
)
    requires
        config_of(env, raw) is Ok,
        is_private_suffix(suffix),
        first_question(query) matches Ok(info) && covers(suffix, info.qname) && lookup(
            config_of(env, raw)->Ok_0.rules.local,
            info.qname,
        ) is None,
        question_end(query) is Ok,
        questions_fit(query),
        be16(query, 4) <= 255,
    ensures
        decided(config_of(env, raw)->Ok_0, kept, learned, query, now) matches DecisionModel::Reply(
            reply,
        ) && reply[3] % 16 == RCODE_NXDOMAIN && be16(reply, 6) == 0,
{
    let info = first_question(query)->Ok_0;
    law_private_names_are_blocked(env, raw, suffix, info.qname);
    law_blocked_names_do_not_exist(config_of(env, raw)->Ok_0, kept, learned, query, now);
}

/// A local name is answered with its address, before anything else is asked.
pub proof fn law_local_names_have_their_address(
    config: ConfigModel,
    kept: Seq<Entry>,
    learned: Map<Seq<char>, ExtraDomainEntry>,
    query: Seq<u8>,
    now: u64,
)
    requires
        first_question(query) matches Ok(info) && lookup(config.rules.local, info.qname) is Some,
        question_end(query) is Ok,
        questions_fit(query),
        be16(query, 4) == 1,
    ensures
        ({
            let ip = lookup(config.rules.local, first_question(query)->Ok_0.qname)->Some_0;
            decided(config, kept, learned, query, now) matches DecisionModel::Reply(reply)
                && analysis(reply, config.cache) == Ok::<(Answer, u32), DnsError>(
                (Answer::A(seq![ip]), cached_ttl(config.cache, LOCAL_TTL)),
            )
        }),
{
    let ip = lookup(config.rules.local, first_question(query)->Ok_0.qname)->Some_0;
    law_reply_answers_its_query(query, 0, 1, local_record(ip.bytes()));
    law_local_reply_gives_the_address(query, ip, config.cache);
}

/// A question for an IPv6 address under a rule that blocks them gets a reply
/// without answers and without an error, where nothing is kept for it.
pub proof fn law_blocked_ipv6_is_empty(
    config: ConfigModel,
    kept: Seq<Entry>,
    learned: Map<Seq<char>, ExtraDomainEntry>,
    query: Seq<u8>,
    now: u64,
)
    requires
        first_question(query) matches Ok(info) && info.qtype == DNS_TYPE_AAAA && lookup(
            config.rules.local,
            info.qname,
        ) is None && lookup(config.rules.blocked, info.qname) is None && fetched(
            kept,
            key_of(info),
            now,
        ) is None && blocks(
            config.rules.forward,
            rule_for(config.rules.forward, learned, info.qname, now),
            info,
        ),
        question_end(query) is Ok,
        questions_fit(query),
        be16(query, 4) <= 255,
    ensures
        decided(config, kept, learned, query, now) matches DecisionModel::Reply(reply) && reply[3]
            % 16 == 0 && be16(reply, 6) == 0,
{
    law_reply_answers_its_query(query, 0, 0, Seq::empty());
}

/// What is sent to an upstream asks for the name that is looked for.
pub proof fn law_message_asks_for_the_name(
    config: ConfigModel,
    pending: PendingModel,
    query_id: u16,
)
    requires
        plain_name(pending.current.qname),
    ensures
        first_question(message_for(config, pending, query_id)) == Ok::<Question, DnsError>(
            pending.current,
        ),
        be16(message_for(config, pending, query_id), 0) == query_id,
{
    law_query_reads_back(query_id, pending.current, subnet_for(config, pending.rule));
}

/// The client subnet of a rule overrides the one for all, which holds where the
/// rule has none and for the default servers.
pub proof fn law_rule_subnet_comes_first(config: ConfigModel, rule: Option<usize>)
    ensures
        subnet_for(config, rule) == (match rule_at(config.rules.forward, rule) {
            Some(r) if r.subnet is Some => r.subnet,
            _ => config.subnet,
        }),
{
}

/// In a configuration that was built, every query has a server to go to.
pub proof fn law_every_query_has_a_server(env: Surroundings, raw: RawConfig, rule: Option<usize>)
    ensures
        config_of(env, raw) matches Ok(config) ==> servers_for(config, rule).len() > 0,
{
    law_every_rule_has_an_upstream(env, raw);
}

/// Following an alias takes one step and lengthens the chain by its target,
/// which was not in it. So no alias is followed twice, and as no more is asked
/// for behind the deepest step, every resolution ends.
pub proof fn law_chase_is_bounded(config: ConfigModel, pending: PendingModel, response: Seq<u8>)
    requires
        pending.depth == pending.chain.len(),
        pending.depth <= MAX_DEPTH,
        forall|i: int, j: int|
            0 <= i < j < pending.chain.len() ==> (#[trigger] pending.chain[i]).0 != (
            #[trigger] pending.chain[j]).0,
    ensures
        resolved(config, pending, response) matches OutcomeModel::Follow(next) ==> {
            &&& next.depth == pending.depth + 1
            &&& next.depth == next.chain.len()
            &&& next.chain.drop_last() == pending.chain
            &&& next.current.qname == next.chain.last().0
            &&& next.current.qtype == pending.current.qtype
            &&& next.current.qclass == pending.current.qclass
            &&& next.query == pending.query
            &&& next.info == pending.info
            &&& next.rule == pending.rule
            &&& forall|i: int, j: int|
                0 <= i < j < next.chain.len() ==> (#[trigger] next.chain[i]).0 != (
                #[trigger] next.chain[j]).0
        },
{
    if let OutcomeModel::Follow(next) = resolved(config, pending, response) {
        assert(next.chain.drop_last() =~= pending.chain);
        assert(!leads_to(pending.chain, next.chain.last().0));
        assert forall|i: int, j: int| 0 <= i < j < next.chain.len() implies (
        #[trigger] next.chain[i]).0 != (#[trigger] next.chain[j]).0 by {
            assert(next.chain[i] == pending.chain[i]);
            if j < pending.chain.len() {
                assert(next.chain[j] == pending.chain[j]);
            }
        }
    }
}

/// The target of an alias that was followed under a rule follows that rule for
/// the time that it is remembered.
pub proof fn law_target_is_learned(
    config: ConfigModel,
    learned: Map<Seq<char>, ExtraDomainEntry>,
    pending: PendingModel,
    response: Seq<u8>,
    now: u64,
    later: u64,
)
    requires
        now <= later < now + EXTRA_DOMAIN_TTL * NANOS,
        rule_at(config.rules.forward, pending.rule) matches Some(rule) && 0 <= rule.id
            <= usize::MAX,
    ensures
        resolved(config, pending, response) matches OutcomeModel::Follow(next) ==> learned_rule(
            learned_from(config, learned, pending, response, now),
            next.current.qname,
            later,
        ) == Some(rule_at(config.rules.forward, pending.rule)->Some_0.id as usize),
{
    if let OutcomeModel::Follow(next) = resolved(config, pending, response) {
        let rule = rule_at(config.rules.forward, pending.rule)->Some_0;
        law_target_follows_its_rule(learned, next.current.qname, rule.id as usize, now, later);
    }
}

/// The identifiers of some rules find their rules.
proof fn lemma_id_finds_its_rule(rules: Seq<ForwardModel>, place: int, from: int)
    requires
        0 <= from <= place < rules.len(),
        rules.len() <= usize::MAX,
        0 <= rules[place].id <= usize::MAX,
        forall|i: int, j: int|
            0 <= i < j < rules.len() ==> (#[trigger] rules[i]).id < (#[trigger] rules[j]).id,
    ensures
        rule_with_id(rules, rules[place].id as usize, from) == Some(place as usize),
    decreases place - from,
{
    if from < place {
        assert(rules[from].id < rules[place].id);
        lemma_id_finds_its_rule(rules, place, from + 1);
    }
}

/// In a configuration that was built, a later query for the target of an alias
/// is resolved under the rule under which the alias was followed, unless its
/// name stands under a suffix of a rule.
pub proof fn law_later_query_follows_the_rule(
    env: Surroundings,
    raw: RawConfig,
    learned: Map<Seq<char>, ExtraDomainEntry>,
    pending: PendingModel,
    response: Seq<u8>,
    now: u64,
    later: u64,
)
    requires
        now <= later < now + EXTRA_DOMAIN_TTL * NANOS,
        config_of(env, raw) is Ok,
        raw.rules@.len() <= usize::MAX,
        config_of(env, raw)->Ok_0.rules.forward.len() <= usize::MAX,
        pending.rule matches Some(i) && i < config_of(env, raw)->Ok_0.rules.forward.len(),
    ensures
        ({
            let config = config_of(env, raw)->Ok_0;
            resolved(config, pending, response) matches OutcomeModel::Follow(next) ==> {
                let after = learned_from(config, learned, pending, response, now);
                let name = next.current.qname;
                rule_for(config.rules.forward, after, name, later) == (match suffix_rule(
                    config.rules.forward,
                    name,
                    0,
                ) {
                    Some(i) => Some(i),
                    None => pending.rule,
                })
            }
        }),
{
    let config = config_of(env, raw)->Ok_0;
    let place = pending.rule->Some_0 as int;
    law_rule_ids_grow(env, raw);
    assert(0 <= config.rules.forward[place].id < raw.rules@.len());
    law_target_is_learned(config, learned, pending, response, now, later);
    lemma_id_finds_its_rule(config.rules.forward, place, 0);
}

/// The targets that were followed can be written while a query is resolved, as
/// long as none is longer than two bytes can tell.
pub proof fn law_followed_targets_fit(
    config: ConfigModel,
    pending: PendingModel,
    response: Seq<u8>,
)
    requires
        targets_fit(pending.chain),
    ensures
        resolved(config, pending, response) matches OutcomeModel::Follow(next) ==> (name_bytes(
            next.current.qname,
        ).len() <= 0xFFFF ==> targets_fit(next.chain)),
        forall|query: Seq<u8>, info: Question, rule: Option<usize>|
            targets_fit((#[trigger] fresh(query, info, rule)).chain),
{
    if let OutcomeModel::Follow(next) = resolved(config, pending, response) {
        let start = question_end(response)->Ok_0;
        let count = be16(response, 6) as nat;
        lemma_found_target_is_writable(response, start, count);
        assert forall|i: int| 0 <= i < next.chain.len() && name_bytes(next.current.qname).len()
            <= 0xFFFF implies writable_name((#[trigger] next.chain[i]).0) && name_bytes(
            next.chain[i].0,
        ).len() <= 0xFFFF by {
            if i < pending.chain.len() {
                assert(next.chain[i] == pending.chain[i]);
            }
        }
    }
}

/// The target of an alias that is found in a message can be written.
proof fn lemma_found_target_is_writable(data: Seq<u8>, at: int, count: nat)
    ensures
        findings(data, at, count) matches Ok(f) ==> (f.cname_target matches Some(target)
            ==> writable_name(target)),
    decreases count,
{
    if count > 0 {
        let last = (count - 1) as nat;
        lemma_found_target_is_writable(data, at, last);
        if let Ok(f) = findings(data, at, last) {
            if let Ok(p) = name_end(data, f.at) {
                law_read_name_is_writable(data, p + 10);
            }
        }
    }
}

proof fn lemma_cap_of_another_query(response: Seq<u8>, query: Seq<u8>)
    requires
        cap_outcome(response) is Ok,
        query.len() >= 2,
    ensures
        response.len() >= 12,
        cap_outcome(query.subrange(0, 2) + response.skip(2)) is Ok,
{
    law_cap_ignores_the_identifier(response, query.subrange(0, 2) + response.skip(2));
}

/// The analysis of a response reads all its answers.
proof fn lemma_analysed_can_be_capped(response: Seq<u8>, cache: CacheConfig)
    requires
        analysis(response, cache) is Ok,
    ensures
        cap_outcome(response) is Ok,
{
    lemma_findings_end(response, question_end(response)->Ok_0, be16(response, 6) as nat);
}

/// The lifetimes of the response to a query that was resolved can be replaced,
/// whatever its identifier.
pub proof fn law_resolved_response_can_be_kept(
    config: ConfigModel,
    pending: PendingModel,
    response: Seq<u8>,
    query: Seq<u8>,
)
    requires
        pending.chain.len() <= 0xFFFF,
        targets_fit(pending.chain),
        query.len() >= 2,
    ensures
        resolved(config, pending, response) matches OutcomeModel::Done(answered) ==> {
            &&& answered.query == pending.query
            &&& answered.response.len() >= 12
            &&& cap_outcome(query.subrange(0, 2) + answered.response.skip(2)) is Ok
        },
{
    if let OutcomeModel::Done(answered) = resolved(config, pending, response) {
        if pending.chain.len() == 0 {
            lemma_analysed_can_be_capped(response, config.cache);
        } else {
            law_chase_answers_the_query(
                pending.query,
                pending.chain,
                response,
                answered.answer,
                answered.ttl,
                config.cache,
            );
        }
        lemma_cap_of_another_query(answered.response, query);
    }
}

/// What is kept for a query is given with the full seconds that are left.
proof fn lemma_kept_is_given(
    config: ConfigModel,
    entries: Seq<Entry>,
    learned: Map<Seq<char>, ExtraDomainEntry>,
    query: Seq<u8>,
    info: Question,
    bytes: Seq<u8>,
    ttl: u32,
    now: u64,
    later: u64,
)
    requires
        kept(entries, key_of(info)) == Some((bytes, deadline_of(now, ttl))),
        now <= later < now + ttl * NANOS,
        first_question(query) matches Ok(asked) && key_of(asked) == key_of(info) && lookup(
            config.rules.local,
            asked.qname,
        ) is None && lookup(config.rules.blocked, asked.qname) is None,
    ensures
        0 <= (now + ttl * NANOS - later) / NANOS as int <= ttl,
        decided(config, entries, learned, query, later) == reply_from_cache(
            query,
            bytes,
            ((now + ttl * NANOS - later) / NANOS as int) as u32,
        ),
{
}

/// Whether a reply is another one with an identifier and a lifetime of its own.
pub open spec fn same_but_for_lifetimes(
    first: Seq<u8>,
    reply: Seq<u8>,
    query: Seq<u8>,
    seconds: int,
) -> bool {
    let start = question_end(first)->Ok_0;
    let count = be16(first, 6) as nat;
    &&& question_end(first) is Ok
    &&& reply.len() == first.len()
    &&& be16(reply, 0) == be16(query, 0)
    &&& forall|k: nat|
        k < count ==> (#[trigger] fixed_part(first, start, k)) is Ok && be32(
            reply,
            fixed_part(first, start, k)->Ok_0 + 4,
        ) == seconds
    &&& forall|i: int|
        2 <= i < first.len() && !in_lifetime(first, start, count, i) ==> #[trigger] reply[i]
            == first[i]
}

/// What was replied once is given again from what was kept of it.
proof fn lemma_given_again(asked: Seq<u8>, query: Seq<u8>, response: Seq<u8>, seconds: u32)
    requires
        asked.len() >= 2,
        query.len() >= 2,
        cap_outcome(asked.subrange(0, 2) + response.skip(2)) is Ok,
        response.len() >= 2,
    ensures
        reply_from_cache(query, response.skip(2), seconds) matches DecisionModel::Reply(reply)
            && same_but_for_lifetimes(
            asked.subrange(0, 2) + response.skip(2),
            reply,
            query,
            seconds as int,
        ),
{
    let first = asked.subrange(0, 2) + response.skip(2);
    let data = query.subrange(0, 2) + response.skip(2);
    assert forall|k: int| 2 <= k < first.len() implies first[k] == data[k] by {}
    law_cap_under_another_identifier(first, data, seconds);
    law_cap_keeps_the_front(data, seconds);
    let reply = capped(data, seconds);
    assert(reply[0] == query[0] && reply[1] == query[1]);
}

/// A query for what was resolved before is answered from what is kept, as long
/// as that is kept and until it expires. The reply carries the identifier of its
/// query. Behind it, it is the first reply, but for the lifetime of every
/// answer: that is the full seconds that are left of its time.
pub proof fn law_resolved_query_is_answered_again(
    config: ConfigModel,
    pending: PendingModel,
    response: Seq<u8>,
    answered: AnsweredModel,
    entries: Seq<Entry>,
    learned: Map<Seq<char>, ExtraDomainEntry>,
    query: Seq<u8>,
    now: u64,
    later: u64,
)
    requires
        resolved(config, pending, response) == OutcomeModel::Done(answered),
        pending.chain.len() <= 0xFFFF,
        targets_fit(pending.chain),
        pending.query.len() >= 2,
        kept(entries, key_of(answered.info)) == Some(
            (answered.response.skip(2), deadline_of(now, answered.ttl)),
        ),
        now <= later < now + answered.ttl * NANOS,
        first_question(query) matches Ok(info) && key_of(info) == key_of(answered.info) && lookup(
            config.rules.local,
            info.qname,
        ) is None && lookup(config.rules.blocked, info.qname) is None,
    ensures
        ({
            let seconds = (now + answered.ttl * NANOS - later) / NANOS as int;
            &&& seconds <= answered.ttl
            &&& be16(final_reply(answered), 0) == be16(answered.query, 0)
            &&& decided(config, entries, learned, query, later) matches DecisionModel::Reply(reply)
                && same_but_for_lifetimes(final_reply(answered), reply, query, seconds)
        }),
{
    let seconds = ((now + answered.ttl * NANOS - later) / NANOS as int) as u32;
    law_resolved_response_can_be_kept(config, pending, response, pending.query);
    law_final_reply_carries_the_identifier(answered);
    lemma_kept_is_given(
        config,
        entries,
        learned,
        query,
        answered.info,
        answered.response.skip(2),
        answered.ttl,
        now,
        later,
    );
    lemma_given_again(answered.query, query, answered.response, seconds);
}

} // verus!
