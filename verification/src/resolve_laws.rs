//! What holds of the outcome of a response that an upstream sent.
use crate::addr::SocketAddr;
use crate::answer_laws::{
    are_the_addresses, has_ipv4, has_type, is_first_target, law_analysis_says_what_is_answered,
};
use crate::answers::{analysis, Answer};
use crate::cache::{
    deadline_of, fetched, key_of, keys_differ, law_kept_until_it_expires,
    law_keys_tell_questions_apart, same_but_for_case, Entry,
};
use crate::chase::{
    chase_bytes, chase_defined, copied, extra_addresses, rewritten, rewritten_section,
};
use crate::chase_laws::{
    answers_behind, has_address, law_chase_answers_the_query, law_chase_records_read_back,
    lemma_addresses_need_answers, record_count, targets_fit,
};
use crate::dns::{first_question, lemma_read_name_ends, question_end, Question};
use crate::lifetime::{after_records, fixed_part};
use crate::message_laws::{law_query_holds_its_question, law_query_reads_back};
use crate::name_laws::plain_name;
use crate::routing_laws::law_responses_are_given_for_their_question;
use crate::rules::ConfigModel;
use crate::server::{
    asked, kept_finally, resolved, subnet_for, AnsweredModel, OutcomeModel, PendingModel,
    ServerError, MAX_DEPTH,
};
use crate::wire::{be16, be32, name_at, uncompressed, DnsError};
use vstd::prelude::*;

verus! {

/// A query that was resolved keeps its bytes, what it asks for and its rule. What
/// was answered and for how long is what the last response says. Where no alias
/// was followed, the response to the query is the last response.
pub proof fn law_resolved_query_stays_itself(
    config: ConfigModel,
    pending: PendingModel,
    response: Seq<u8>,
)
    ensures
        resolved(config, pending, response) matches OutcomeModel::Done(answered) ==> {
            &&& answered.query == pending.query
            &&& answered.info == pending.info
            &&& answered.rule == pending.rule
            &&& analysis(response, config.cache) == Ok::<(Answer, u32), DnsError>(
                (answered.answer, answered.ttl),
            )
            &&& answered.answer !is Cname
            &&& pending.chain.len() == 0 ==> answered.response == response
        },
{
}

/// The response to a query behind aliases, whatever the kind of its addresses, has
/// the identifier and the questions of the query, is marked as a response with the
/// code of the last response, and has the aliases and the answers of the last
/// response as its answers. Where the last response gave an address, it answers
/// what that answered.
pub proof fn law_response_behind_aliases_answers_the_query(
    config: ConfigModel,
    pending: PendingModel,
    response: Seq<u8>,
)
    requires
        0 < pending.chain.len() <= 0xFFFF,
        targets_fit(pending.chain),
    ensures
        resolved(config, pending, response) matches OutcomeModel::Done(answered) ==> {
            &&& answers_behind(
                pending.query,
                pending.chain.len(),
                response,
                answered.response,
            )
            &&& has_address(answered.answer) ==> (analysis(
                answered.response,
                config.cache,
            ) matches Ok((a, _)) && a == answered.answer)
        },
{
    if let OutcomeModel::Done(answered) = resolved(config, pending, response) {
        law_chase_answers_the_query(
            pending.query,
            pending.chain,
            response,
            answered.answer,
            answered.ttl,
            config.cache,
        );
    }
}

/// The first answers of the response to a query behind aliases are these aliases,
/// one for each that was followed: the record with index `index` is an alias of
/// the internet class with its lifetime that is owned by the name before it, which
/// is the name that the query asks for in front of the first one, and leads to its
/// target. Behind them stand the records of the last response, with their types,
/// classes and lifetimes. Names read so where they could be written so.
pub proof fn law_response_behind_aliases_holds_them(
    config: ConfigModel,
    pending: PendingModel,
    response: Seq<u8>,
    index: nat,
)
    requires
        0 < pending.chain.len() <= 0xFFFF,
        targets_fit(pending.chain),
        index < pending.chain.len() + record_count(response),
    ensures
        resolved(config, pending, response) matches OutcomeModel::Done(answered) ==> {
            let reply = answered.response;
            let chain = pending.chain;
            let end = question_end(pending.query)->Ok_0;
            let p = after_records(reply, end, index)->Ok_0;
            let r = fixed_part(reply, end, index)->Ok_0;
            let at = question_end(response)->Ok_0;
            let place = (index - chain.len()) as nat;
            let q = fixed_part(response, at, place)->Ok_0;
            &&& after_records(reply, end, index) is Ok
            &&& fixed_part(reply, end, index) is Ok
            &&& index < chain.len() ==> {
                let owner = if index == 0 {
                    first_question(pending.query)->Ok_0.qname
                } else {
                    chain[index - 1].0
                };
                &&& be16(reply, r) == 5
                &&& be16(reply, r + 2) == 1
                &&& be32(reply, r + 4) == chain[index as int].1
                &&& uncompressed(reply, p)
                &&& uncompressed(reply, r + 10)
                &&& plain_name(owner) ==> name_at(reply, p) == Ok::<Seq<char>, DnsError>(owner)
                &&& plain_name(chain[index as int].0) ==> name_at(reply, r + 10) == Ok::<
                    Seq<char>,
                    DnsError,
                >(chain[index as int].0)
            }
            &&& index >= chain.len() ==> {
                &&& fixed_part(response, at, place) is Ok
                &&& be16(reply, r) == be16(response, q)
                &&& be16(reply, r + 2) == be16(response, q + 2)
                &&& be32(reply, r + 4) == be32(response, q + 4)
                &&& uncompressed(reply, p)
                &&& be16(response, q) != 5 ==> reply.subrange(r + 10, r + 10 + be16(reply, r + 8))
                    == response.subrange(q + 10, q + 10 + be16(response, q + 8))
            }
        },
{
    if let OutcomeModel::Done(answered) = resolved(config, pending, response) {
        lemma_addresses_need_answers(response, config.cache);
        law_chase_records_read_back(
            pending.query,
            pending.chain,
            response,
            answered.answer,
            answered.ttl,
            index,
        );
    }
}

/// Whether each of the first records from a place on lies in the message with its
/// data, and its owner can be read.
pub open spec fn whole_records(source: Seq<u8>, at: int, count: nat) -> bool {
    forall|k: nat| k < count ==> #[trigger] whole_record(source, at, k)
}

/// Whether the record with an index lies in the message with its data, and its
/// owner can be read.
pub open spec fn whole_record(source: Seq<u8>, at: int, k: nat) -> bool {
    &&& after_records(source, at, k) matches Ok(p) && name_at(source, p) is Ok
    &&& after_records(source, at, k + 1) matches Ok(end) && end <= source.len()
}

proof fn lemma_whole_records_are_rewritten(source: Seq<u8>, at: int, start: nat, count: nat)
    requires
        after_records(source, at, start) is Ok,
        whole_records(source, at, start + count),
    ensures
        ({
            let from = after_records(source, at, start)->Ok_0;
            &&& after_records(source, at, start + count) is Ok
            &&& after_records(source, from, count) == after_records(source, at, start + count)
            &&& rewritten_section(source, from, count) matches Ok((_, end)) && Ok::<int, DnsError>(
                end,
            ) == after_records(source, at, start + count)
        }),
    decreases count,
{
    if count > 0 {
        let last = (count - 1) as nat;
        assert(whole_records(source, at, start + last)) by {
            assert forall|k: nat| k < start + last implies #[trigger] whole_record(
                source,
                at,
                k,
            ) by {
                assert(whole_record(source, at, k));
            }
        }
        lemma_whole_records_are_rewritten(source, at, start, last);
        assert(whole_record(source, at, start + last));
        let p = after_records(source, at, start + last)->Ok_0;
        reveal_with_fuel(copied, 2);
        lemma_read_name_ends(source, p, source.len() + 1);
        assert((start + last + 1) as nat == start + count);
        assert((start + count - 1) as nat == start + last);
        assert(rewritten(source, p) is Ok);
    }
}

/// A query behind aliases is resolved by every response that gives an address or
/// nothing and whose records all lie in it, as long as its answers and the aliases
/// can be counted and the query can be read.
pub proof fn law_whole_responses_resolve(
    config: ConfigModel,
    pending: PendingModel,
    response: Seq<u8>,
)
    requires
        analysis(response, config.cache) matches Ok((answer, _)) && answer !is Cname,
        pending.chain.len() > 0 ==> {
            &&& first_question(pending.query) is Ok
            &&& question_end(pending.query) matches Ok(end) && end <= pending.query.len()
            &&& question_end(response) matches Ok(at) && at <= response.len() && whole_records(
                response,
                at,
                record_count(response),
            )
            &&& pending.chain.len() + be16(response, 6) <= 0xFFFF
        },
    ensures
        resolved(config, pending, response) is Done,
{
    if pending.chain.len() > 0 {
        let (answer, ttl) = analysis(response, config.cache)->Ok_0;
        lemma_addresses_need_answers(response, config.cache);
        lemma_whole_sections(response, question_end(response)->Ok_0);
        lemma_whole_is_chased(pending.query, pending.chain, response, answer, ttl);
    }
}

/// The three sections of a response whose records are whole can be rewritten.
proof fn lemma_whole_sections(response: Seq<u8>, at: int)
    requires
        whole_records(response, at, record_count(response)),
    ensures
        ({
            let authority = after_records(response, at, be16(response, 6) as nat);
            let additional = after_records(
                response,
                authority->Ok_0,
                be16(response, 8) as nat,
            );
            &&& rewritten_section(response, at, be16(response, 6) as nat) is Ok
            &&& authority is Ok
            &&& rewritten_section(response, authority->Ok_0, be16(response, 8) as nat) is Ok
            &&& additional is Ok
            &&& rewritten_section(response, additional->Ok_0, be16(response, 10) as nat) is Ok
        }),
{
    let an = be16(response, 6) as nat;
    let ns = be16(response, 8) as nat;
    let ar = be16(response, 10) as nat;
    assert(record_count(response) == an + ns + ar);
    lemma_fewer_whole(response, at, an, an + ns + ar);
    lemma_fewer_whole(response, at, an + ns, an + ns + ar);
    lemma_whole_records_are_rewritten(response, at, 0, an);
    lemma_whole_records_are_rewritten(response, at, an, ns);
    lemma_whole_records_are_rewritten(response, at, an + ns, ar);
}

proof fn lemma_whole_is_chased(
    query: Seq<u8>,
    chain: Seq<(Seq<char>, u32)>,
    response: Seq<u8>,
    answer: Answer,
    ttl: u32,
)
    requires
        response.len() >= 12,
        first_question(query) is Ok,
        question_end(query) matches Ok(end) && end <= query.len(),
        question_end(response) matches Ok(at) && at <= response.len(),
        extra_addresses(response, answer).len() == 0,
        chain.len() + be16(response, 6) <= 0xFFFF,
        ({
            let at = question_end(response)->Ok_0;
            let authority = after_records(response, at, be16(response, 6) as nat);
            let additional = after_records(
                response,
                authority->Ok_0,
                be16(response, 8) as nat,
            );
            &&& rewritten_section(response, at, be16(response, 6) as nat) is Ok
            &&& authority is Ok
            &&& rewritten_section(response, authority->Ok_0, be16(response, 8) as nat) is Ok
            &&& additional is Ok
            &&& rewritten_section(response, additional->Ok_0, be16(response, 10) as nat) is Ok
        }),
    ensures
        chase_defined(query, chain.len(), response, answer),
        chase_bytes(query, chain, response, answer, ttl) is Ok,
{
}

proof fn lemma_fewer_whole(source: Seq<u8>, at: int, few: nat, many: nat)
    requires
        few <= many,
        whole_records(source, at, many),
    ensures
        whole_records(source, at, few),
{
    assert forall|k: nat| k < few implies #[trigger] whole_record(source, at, k) by {
        assert(whole_record(source, at, k));
    }
}

/// A response that cannot be analysed leaves the query without a reply.
pub proof fn law_unreadable_responses_resolve_nothing(
    config: ConfigModel,
    pending: PendingModel,
    response: Seq<u8>,
    e: DnsError,
)
    requires
        analysis(response, config.cache) == Err::<(Answer, u32), DnsError>(e),
    ensures
        resolved(config, pending, response) == OutcomeModel::Fail(ServerError::Message(e)),
{
}

/// A response that is an alias without an address is followed to its target,
/// unless an alias before it led there: then the aliases go round, and the query
/// gets no reply. What is asked for next is the target, of the type and class that
/// were asked for; the chain gets longer by it, and the query, what it asks for and
/// its rule stay.
pub proof fn law_aliases_are_followed(
    config: ConfigModel,
    pending: PendingModel,
    response: Seq<u8>,
    target: Seq<char>,
    ttl: u32,
)
    requires
        analysis(response, config.cache) == Ok::<(Answer, u32), DnsError>(
            (Answer::Cname(target), ttl),
        ),
        pending.depth < usize::MAX,
    ensures
        (exists|i: int| 0 <= i < pending.chain.len() && (#[trigger] pending.chain[i]).0 == target)
            ==> resolved(config, pending, response) == OutcomeModel::Fail(ServerError::AliasLoop),
        (forall|i: int| 0 <= i < pending.chain.len() ==> (#[trigger] pending.chain[i]).0 != target)
            ==> (resolved(config, pending, response) matches OutcomeModel::Follow(next)
            && next.current == (Question {
            qname: target,
            qtype: pending.current.qtype,
            qclass: pending.current.qclass,
        }) && next.chain == pending.chain.push((target, ttl)) && next.depth == pending.depth + 1
            && next.query == pending.query && next.info == pending.info && next.rule
            == pending.rule),
{
}

/// Aliases are followed up to ten deep: what is asked for next is refused just
/// where more than ten were followed.
pub proof fn law_ten_aliases_are_followed(
    config: ConfigModel,
    pending: PendingModel,
    response: Seq<u8>,
)
    requires
        pending.depth == pending.chain.len(),
        pending.depth < usize::MAX,
    ensures
        resolved(config, pending, response) matches OutcomeModel::Follow(next) ==> (next.depth
            > MAX_DEPTH <==> next.chain.len() > 10),
{
}

/// A query behind at most ten aliases is sent to the server that was chosen: what is
/// sent carries the identifier that was chosen, asks for the name that was reached
/// and for the type and class of the query, and has the client subnet of its rule, or
/// else the one for all. Behind more aliases nothing is asked.
pub proof fn law_ten_aliases_are_asked_behind(
    config: ConfigModel,
    pending: PendingModel,
    query_id: u16,
    server: SocketAddr,
)
    requires
        plain_name(pending.current.qname),
    ensures
        pending.depth <= 10 ==> {
            &&& asked(config, pending, query_id, Some(server)) matches Ok((to, message)) && {
                &&& to == server
                &&& be16(message, 0) == query_id
                &&& first_question(message) == Ok::<Question, DnsError>(pending.current)
                &&& be16(message, 10) == 1 <==> subnet_for(config, pending.rule) is Some
            }
            &&& asked(config, pending, query_id, None) == Err::<(SocketAddr, Seq<u8>), ServerError>(
                ServerError::NoUpstream,
            )
        },
        pending.depth > 10 ==> asked(config, pending, query_id, Some(server)) == Err::<
            (SocketAddr, Seq<u8>),
            ServerError,
        >(ServerError::ChainTooLong),
{
    let subnet = subnet_for(config, pending.rule);
    law_query_reads_back(query_id, pending.current, subnet);
    law_query_holds_its_question(query_id, pending.current, subnet);
}

/// What a response comes to is told by its answers: it is followed or found to go
/// round where they hold no address but an alias, and otherwise it resolves the
/// query or is found faulty.
pub proof fn law_answers_tell_the_outcome(
    config: ConfigModel,
    pending: PendingModel,
    response: Seq<u8>,
)
    requires
        analysis(response, config.cache) is Ok,
    ensures
        ({
            let at = question_end(response)->Ok_0;
            let count = be16(response, 6) as nat;
            let address = has_type(response, at, count, 28) || has_ipv4(response, at, count);
            let alias = !address && has_type(response, at, count, 5);
            let outcome = resolved(config, pending, response);
            &&& outcome is Follow ==> alias && is_first_target(
                response,
                at,
                count,
                outcome->Follow_0.current.qname,
            )
            &&& outcome == OutcomeModel::Fail(ServerError::AliasLoop) ==> alias
            &&& outcome is Done ==> !alias && {
                let answer = outcome->Done_0.answer;
                &&& has_type(response, at, count, 28) <==> answer is Aaaa
                &&& has_ipv4(response, at, count) && answer !is Aaaa ==> answer is A
                    && are_the_addresses(response, at, count, answer->A_0)
                &&& !address ==> answer is A && answer->A_0.len() == 0
            }
        }),
{
    law_analysis_says_what_is_answered(response, config.cache);
}

/// Once a query has been resolved, a query for the same type and class of the same
/// name, in whatever case its letters are, is given the response without its
/// identifier, for as many seconds as its answers live: with the full seconds that
/// are left of them, and not afterwards.
pub proof fn law_resolved_response_is_kept(
    entries: Seq<Entry>,
    limit: nat,
    answered: AnsweredModel,
    asked: Question,
    now: u64,
    later: u64,
)
    requires
        same_but_for_case(asked.qname, answered.info.qname),
        asked.qtype == answered.info.qtype,
        asked.qclass == answered.info.qclass,
        now <= later,
    ensures
        ({
            let after = kept_finally(entries, limit, answered, now);
            let left = now + answered.ttl * 1_000_000_000 - later;
            &&& left > 0 ==> (fetched(after, key_of(asked), later) matches Some((bytes, seconds))
                && bytes == answered.response.skip(2) && seconds * 1_000_000_000 <= left < (seconds
                + 1) * 1_000_000_000)
            &&& left <= 0 ==> fetched(after, key_of(asked), later) is None
        }),
{
    law_keys_tell_questions_apart(asked, answered.info);
    law_kept_until_it_expires(
        entries,
        limit,
        key_of(answered.info),
        answered.response.skip(2),
        answered.ttl,
        now,
        later,
    );
}

/// Once a query has been resolved, a query for another type, class or name is given
/// nothing that it was not given before.
pub proof fn law_resolved_response_is_kept_for_its_question(
    entries: Seq<Entry>,
    limit: nat,
    answered: AnsweredModel,
    asked: Question,
    now: u64,
    later: u64,
)
    requires
        keys_differ(entries),
        entries.len() <= limit,
        limit > 0,
        asked.qtype != answered.info.qtype || asked.qclass != answered.info.qclass
            || !same_but_for_case(answered.info.qname, asked.qname),
    ensures
        fetched(kept_finally(entries, limit, answered, now), key_of(asked), later) matches Some(
            given,
        ) ==> fetched(entries, key_of(asked), later) == Some(given),
{
    law_responses_are_given_for_their_question(
        entries,
        limit,
        answered.info,
        (answered.response.skip(2), deadline_of(now, answered.ttl)),
        asked,
        later,
    );
}

} // verus!
