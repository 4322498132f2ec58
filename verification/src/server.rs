//! What is done with a query, from its arrival to its reply.
use crate::addr::{ClientSubnet, SocketAddr};
use crate::answers::{analysis, analyze_response, Answer, Response};
use crate::cache::{after_fetch, deadline_of, fetched, key_of, with_entry, Cache, Entry};
use crate::chase::{chase_bytes, chase_defined, chase_response, links};
use crate::dns::{
    build_a_response, build_empty_response, build_nxdomain_response, check_questions_fit,
    first_question, local_record, query_bytes, questions_fit, reply_to, QueryInfo, Question,
    DNS_TYPE_AAAA, RCODE_NXDOMAIN,
};
use crate::extra_domain::{entry_at, learned_rule, unexpired, ExtraDomainEntry, ExtraDomains};
use crate::lifetime::{cap_outcome, cap_response_ttl, capped};
use crate::nft::{add_to_nft_set, addition};
use crate::rules::{Config, ConfigModel, ForwardModel, ForwardRule, NftModel};
use crate::text::same_text;
use crate::trie::lookup;
use crate::wire::{be16, push_range, DnsError};
use vstd::prelude::*;

verus! {

/// How many aliases are followed.
pub const MAX_DEPTH: usize = 10;

/// Why a query gets no reply.
#[derive(Clone, Copy, Debug, PartialEq, Eq, Structural)]
pub enum ServerError {
    /// A message cannot be read.
    Message(DnsError),
    /// The questions of the query, or a record of the response, run behind the
    /// end of the message, or there are too many answers.
    PastEnd,
    /// There is no upstream to ask.
    NoUpstream,
    /// Too many aliases follow one another.
    ChainTooLong,
    /// The aliases lead back to one of them.
    AliasLoop,
}

/// A query that is being resolved.
pub struct Pending {
    /// The bytes of the query.
    pub query: Vec<u8>,
    /// What the query asks for.
    pub info: QueryInfo,
    /// What is asked for next.
    pub current: QueryInfo,
    /// The place of the forward rule, where there is one.
    pub rule: Option<usize>,
    /// The aliases that were followed, with their lifetimes.
    pub chain: Vec<(String, u32)>,
    /// How many aliases were followed.
    pub depth: usize,
}

/// A query that is being resolved, as mathematical values.
#[verifier::ext_equal]
pub struct PendingModel {
    pub query: Seq<u8>,
    pub info: Question,
    pub current: Question,
    pub rule: Option<usize>,
    pub chain: Seq<(Seq<char>, u32)>,
    pub depth: usize,
}

impl View for Pending {
    type V = PendingModel;

    open spec fn view(&self) -> PendingModel {
        PendingModel {
            query: self.query@,
            info: self.info@,
            current: self.current@,
            rule: self.rule,
            chain: links(self.chain@),
            depth: self.depth,
        }
    }
}

/// What is done with a query first.
pub enum Decision {
    /// It is answered.
    Reply(Vec<u8>),
    /// It gets no reply.
    Fail(ServerError),
    /// It is resolved.
    Resolve(Pending),
}

/// What is done with a query first, as mathematical values.
#[verifier::ext_equal]
pub enum DecisionModel {
    Reply(Seq<u8>),
    Fail(ServerError),
    Resolve(PendingModel),
}

impl View for Decision {
    type V = DecisionModel;

    open spec fn view(&self) -> DecisionModel {
        match self {
            Decision::Reply(bytes) => DecisionModel::Reply(bytes@),
            Decision::Fail(e) => DecisionModel::Fail(*e),
            Decision::Resolve(pending) => DecisionModel::Resolve(pending@),
        }
    }
}

/// The place of the first forward rule from `from` on whose suffixes cover a
/// name.
pub open spec fn suffix_rule(rules: Seq<ForwardModel>, name: Seq<char>, from: int) -> Option<usize>
    decreases rules.len() - from,
{
    if from < 0 || from >= rules.len() {
        None
    } else if lookup(rules[from].suffixes, name) is Some {
        Some(from as usize)
    } else {
        suffix_rule(rules, name, from + 1)
    }
}

/// The place of the first forward rule from `from` on with an identifier.
pub open spec fn rule_with_id(rules: Seq<ForwardModel>, id: usize, from: int) -> Option<usize>
    decreases rules.len() - from,
{
    if from < 0 || from >= rules.len() {
        None
    } else if rules[from].id == id {
        Some(from as usize)
    } else {
        rule_with_id(rules, id, from + 1)
    }
}

/// The forward rule of a name: the first one whose suffixes cover it, or else
/// the one that it follows as the target of an alias.
pub open spec fn rule_for(
    rules: Seq<ForwardModel>,
    learned: Map<Seq<char>, ExtraDomainEntry>,
    name: Seq<char>,
    now: u64,
) -> Option<usize> {
    match suffix_rule(rules, name, 0) {
        Some(i) => Some(i),
        None => match learned_rule(learned, name, now) {
            Some(id) => rule_with_id(rules, id, 0),
            None => None,
        },
    }
}

/// The forward rule at a place, where there is one.
pub open spec fn rule_at(rules: Seq<ForwardModel>, place: Option<usize>) -> Option<ForwardModel> {
    match place {
        Some(i) => if i < rules.len() {
            Some(rules[i as int])
        } else {
            None
        },
        None => None,
    }
}

/// What a reply comes to.
pub open spec fn replied(query: Seq<u8>, reply: Result<Seq<u8>, DnsError>) -> DecisionModel {
    if !questions_fit(query) {
        DecisionModel::Fail(ServerError::PastEnd)
    } else {
        match reply {
            Ok(bytes) => DecisionModel::Reply(bytes),
            Err(e) => DecisionModel::Fail(ServerError::Message(e)),
        }
    }
}

/// The reply from a kept response: it gets the identifier of the query, and its
/// answers get what is left of their time.
pub open spec fn reply_from_cache(query: Seq<u8>, bytes: Seq<u8>, seconds: u32) -> DecisionModel {
    let response = query.subrange(0, 2) + bytes;
    match cap_outcome(response) {
        Ok(()) => DecisionModel::Reply(capped(response, seconds)),
        Err(e) => DecisionModel::Fail(ServerError::Message(e)),
    }
}

/// A query at the start of its resolution.
pub open spec fn fresh(query: Seq<u8>, info: Question, rule: Option<usize>) -> PendingModel {
    PendingModel { query, info, current: info, rule, chain: Seq::empty(), depth: 0 }
}

/// Whether a rule answers a question without asking: it blocks IPv6 addresses,
/// and one is asked for.
pub open spec fn blocks(rules: Seq<ForwardModel>, rule: Option<usize>, info: Question) -> bool {
    info.qtype == DNS_TYPE_AAAA && (rule_at(rules, rule) matches Some(r) && r.block_aaaa)
}

/// What is done first with a query that asks for something: local domains are
/// answered, blocked ones do not exist, and what is kept is given.
pub open spec fn decided_for(
    config: ConfigModel,
    kept: Seq<Entry>,
    learned: Map<Seq<char>, ExtraDomainEntry>,
    query: Seq<u8>,
    info: Question,
    now: u64,
) -> DecisionModel {
    match lookup(config.rules.local, info.qname) {
        Some(ip) => replied(
            query,
            reply_to(query, 0, (be16(query, 4) % 256) as u8, local_record(ip.bytes())),
        ),
        None => if lookup(config.rules.blocked, info.qname) is Some {
            replied(query, reply_to(query, RCODE_NXDOMAIN, 0, Seq::empty()))
        } else {
            match fetched(kept, key_of(info), now) {
                Some((bytes, seconds)) => reply_from_cache(query, bytes, seconds),
                None => {
                    let rule = rule_for(config.rules.forward, learned, info.qname, now);
                    if blocks(config.rules.forward, rule, info) {
                        replied(query, reply_to(query, 0, 0, Seq::empty()))
                    } else {
                        DecisionModel::Resolve(fresh(query, info, rule))
                    }
                },
            }
        },
    }
}

/// What is done first with a query.
pub open spec fn decided(
    config: ConfigModel,
    kept: Seq<Entry>,
    learned: Map<Seq<char>, ExtraDomainEntry>,
    query: Seq<u8>,
    now: u64,
) -> DecisionModel {
    match first_question(query) {
        Err(e) => DecisionModel::Fail(ServerError::Message(e)),
        Ok(info) => decided_for(config, kept, learned, query, info, now),
    }
}

/// Whether the kept responses are asked for a query.
pub open spec fn asks_cache(config: ConfigModel, query: Seq<u8>) -> bool {
    first_question(query) matches Ok(info) && lookup(config.rules.local, info.qname) is None
        && lookup(config.rules.blocked, info.qname) is None
}

/// What is kept after the first decision on a query.
pub open spec fn kept_after(config: ConfigModel, kept: Seq<Entry>, query: Seq<u8>, now: u64) -> Seq<
    Entry,
> {
    if asks_cache(config, query) {
        after_fetch(kept, key_of(first_question(query)->Ok_0), now)
    } else {
        kept
    }
}

/// Which targets are remembered after the first decision on a query.
pub open spec fn learned_after(
    config: ConfigModel,
    kept: Seq<Entry>,
    learned: Map<Seq<char>, ExtraDomainEntry>,
    query: Seq<u8>,
    now: u64,
) -> Map<Seq<char>, ExtraDomainEntry> {
    let info = first_question(query)->Ok_0;
    if asks_cache(config, query) && fetched(kept, key_of(info), now) is None && suffix_rule(
        config.rules.forward,
        info.qname,
        0,
    ) is None {
        unexpired(learned, now)
    } else {
        learned
    }
}

/// Finds the first forward rule whose suffixes cover a name.
fn find_suffix_rule(config: &Config, name: &str) -> (r: Option<usize>)
    ensures
        r == suffix_rule(config@.rules.forward, name@, 0),
{
    let mut i: usize = 0;
    while i < config.forward_rules.len()
        invariant
            i <= config.forward_rules@.len(),
            suffix_rule(config@.rules.forward, name@, i as int) == suffix_rule(
                config@.rules.forward,
                name@,
                0,
            ),
        decreases config.forward_rules@.len() - i,
    {
        assert(config@.rules.forward[i as int] == config.forward_rules@[i as int]@);
        if config.forward_rules[i].suffix_trie.get(name).is_some() {
            return Some(i);
        }
        i += 1;
    }
    None
}

/// Finds the first forward rule with an identifier.
fn find_rule_with_id(config: &Config, id: usize) -> (r: Option<usize>)
    ensures
        r == rule_with_id(config@.rules.forward, id, 0),
{
    let mut i: usize = 0;
    while i < config.forward_rules.len()
        invariant
            i <= config.forward_rules@.len(),
            rule_with_id(config@.rules.forward, id, i as int) == rule_with_id(
                config@.rules.forward,
                id,
                0,
            ),
        decreases config.forward_rules@.len() - i,
    {
        assert(config@.rules.forward[i as int] == config.forward_rules@[i as int]@);
        if config.forward_rules[i].id == id {
            return Some(i);
        }
        i += 1;
    }
    None
}

/// Gives the forward rule at a place.
fn get_rule(config: &Config, place: Option<usize>) -> (r: Option<&ForwardRule>)
    ensures
        match rule_at(config@.rules.forward, place) {
            Some(model) => r matches Some(rule) && rule@ == model,
            None => r is None,
        },
{
    match place {
        Some(i) => if i < config.forward_rules.len() {
            assert(config@.rules.forward[i as int] == config.forward_rules@[i as int]@);
            Some(&config.forward_rules[i])
        } else {
            None
        },
        None => None,
    }
}

/// Turns what a reply builder gave into a decision.
fn decide_reply(reply: Result<Vec<u8>, DnsError>) -> (r: Decision)
    ensures
        match reply {
            Ok(bytes) => r@ == DecisionModel::Reply(bytes@),
            Err(e) => r@ == DecisionModel::Fail(ServerError::Message(e)),
        },
{
    match reply {
        Ok(bytes) => Decision::Reply(bytes),
        Err(e) => Decision::Fail(ServerError::Message(e)),
    }
}

/// Replies from a kept response.
fn decide_from_cache(query: &[u8], bytes: &Vec<u8>, seconds: u32) -> (r: Decision)
    requires
        query@.len() >= 2,
    ensures
        r@ == reply_from_cache(query@, bytes@, seconds),
{
    let mut response: Vec<u8> = Vec::new();
    push_range(&mut response, query, 0, 2);
    push_range(&mut response, bytes.as_slice(), 0, bytes.len());
    assert(response@ =~= query@.subrange(0, 2) + bytes@);
    match cap_response_ttl(response.as_mut_slice(), seconds) {
        Ok(()) => Decision::Reply(response),
        Err(e) => Decision::Fail(ServerError::Message(e)),
    }
}

/// Decides what is done with a query first.
pub fn decide(
    config: &Config,
    cache: &mut Cache,
    extra: &mut ExtraDomains,
    query: &[u8],
    now: u64,
) -> (r: Decision)
    ensures
        r@ == decided(config@, old(cache)@, old(extra)@, query@, now),
        final(cache)@ == kept_after(config@, old(cache)@, query@, now),
        final(cache).limit() == old(cache).limit(),
        old(cache).wf() ==> final(cache).wf(),
        final(extra)@ == learned_after(config@, old(cache)@, old(extra)@, query@, now),
{
    let info: QueryInfo = match QueryInfo::parse(query) {
        Ok(info) => info,
        Err(e) => {
            return Decision::Fail(ServerError::Message(e));
        },
    };
    let fit: bool = check_questions_fit(query);
    if let Some(ip) = config.local_domains.get(info.qname.as_str()) {
        if !fit {
            return Decision::Fail(ServerError::PastEnd);
        }
        return decide_reply(build_a_response(query, &ip.octets()));
    }
    if config.blocklist.get(info.qname.as_str()).is_some() {
        if !fit {
            return Decision::Fail(ServerError::PastEnd);
        }
        return decide_reply(build_nxdomain_response(query));
    }
    if let Some((bytes, seconds)) = cache.get(&info, now) {
        return decide_from_cache(query, &bytes, seconds);
    }
    let rule: Option<usize> = match find_suffix_rule(config, info.qname.as_str()) {
        Some(i) => Some(i),
        None => match extra.match_domain(info.qname.as_str(), now) {
            Some(id) => find_rule_with_id(config, id),
            None => None,
        },
    };
    let blocked: bool = match get_rule(config, rule) {
        Some(r) => r.block_aaaa && info.qtype == DNS_TYPE_AAAA,
        None => false,
    };
    if blocked {
        if !fit {
            return Decision::Fail(ServerError::PastEnd);
        }
        return decide_reply(build_empty_response(query));
    }
    let mut bytes: Vec<u8> = Vec::new();
    push_range(&mut bytes, query, 0, query.len());
    assert(bytes@ =~= query@);
    let current: QueryInfo = info.new_qname(info.qname.as_str());
    let pending: Pending = Pending {
        query: bytes,
        info,
        current,
        rule,
        chain: Vec::new(),
        depth: 0,
    };
    assert(pending@ =~= fresh(query@, info@, rule));
    Decision::Resolve(pending)
}

/// The upstreams of a query: those of its rule, or the default servers.
pub open spec fn servers_for(config: ConfigModel, rule: Option<usize>) -> Seq<SocketAddr> {
    match rule_at(config.rules.forward, rule) {
        Some(r) => r.upstreams,
        None => config.default_server,
    }
}

/// The client subnet of a query: that of its rule, or else that for all.
pub open spec fn subnet_for(config: ConfigModel, rule: Option<usize>) -> Option<ClientSubnet> {
    match rule_at(config.rules.forward, rule) {
        Some(r) => match r.subnet {
            Some(subnet) => Some(subnet),
            None => config.subnet,
        },
        None => config.subnet,
    }
}

/// What is sent to a server for a query that is being resolved.
pub open spec fn message_for(config: ConfigModel, pending: PendingModel, query_id: u16) -> Seq<u8> {
    query_bytes(query_id, pending.current, subnet_for(config, pending.rule))
}

/// What is sent next, and to which server, if one was chosen: nothing more is asked
/// once too many aliases were followed.
pub open spec fn asked(
    config: ConfigModel,
    pending: PendingModel,
    query_id: u16,
    server: Option<SocketAddr>,
) -> Result<(SocketAddr, Seq<u8>), ServerError> {
    if pending.depth > MAX_DEPTH {
        Err(ServerError::ChainTooLong)
    } else {
        match server {
            None => Err(ServerError::NoUpstream),
            Some(to) => Ok((to, message_for(config, pending, query_id))),
        }
    }
}

/// `fastrand::u16` gives any number of two bytes.
#[verifier::external_body]
fn random_id() -> (r: u16) {
    fastrand::u16(..)
}

/// `fastrand::choice` gives one of the items, or nothing where there is none.
#[verifier::external_body]
fn random_server(servers: &Vec<SocketAddr>) -> (r: Option<SocketAddr>)
    ensures
        r is None <==> servers@.len() == 0,
        r matches Some(server) ==> servers@.contains(server),
{
    fastrand::choice(servers).copied()
}

/// Says what is sent to a chosen server next, under a chosen identifier.
pub fn ask_server(
    config: &Config,
    pending: &Pending,
    query_id: u16,
    server: Option<SocketAddr>,
) -> (r: Result<(SocketAddr, Vec<u8>), ServerError>)
    ensures
        match asked(config@, pending@, query_id, server) {
            Ok((s, bytes)) => r matches Ok((to, message)) && to == s && message@ == bytes,
            Err(e) => r matches Err(err) && err == e,
        },
        if pending.depth > MAX_DEPTH {
            r matches Err(e) && e == ServerError::ChainTooLong
        } else {
            match server {
                None => r matches Err(e) && e == ServerError::NoUpstream,
                Some(s) => r matches Ok((to, message)) && to == s && message@ == message_for(
                    config@,
                    pending@,
                    query_id,
                ),
            }
        },
{
    if pending.depth > MAX_DEPTH {
        return Err(ServerError::ChainTooLong);
    }
    let subnet: Option<ClientSubnet> = match get_rule(config, pending.rule) {
        Some(rule) => match rule.edns_client_subnet {
            Some(subnet) => Some(subnet),
            None => config.edns_client_subnet,
        },
        None => config.edns_client_subnet,
    };
    let message: Vec<u8> = pending.current.build(query_id, subnet);
    match server {
        Some(to) => Ok((to, message)),
        None => Err(ServerError::NoUpstream),
    }
}

/// Says what is sent next, and to which of the servers.
pub fn ask(config: &Config, pending: &Pending) -> (r: Result<(SocketAddr, Vec<u8>), ServerError>)
    ensures
        match r {
            Ok((to, message)) => {
                &&& pending.depth <= MAX_DEPTH
                &&& servers_for(config@, pending.rule).contains(to)
                &&& exists|query_id: u16| message@ == #[trigger] message_for(
                    config@,
                    pending@,
                    query_id,
                )
            },
            Err(e) => if pending.depth > MAX_DEPTH {
                e == ServerError::ChainTooLong
            } else {
                e == ServerError::NoUpstream && servers_for(config@, pending.rule).len() == 0
            },
        },
{
    let server: Option<SocketAddr> = match get_rule(config, pending.rule) {
        Some(rule) => random_server(&rule.upstreams),
        None => random_server(&config.default_server),
    };
    ask_server(config, pending, random_id(), server)
}

/// A query that has been resolved.
pub struct Answered {
    /// The bytes of the query.
    pub query: Vec<u8>,
    /// What the query asks for.
    pub info: QueryInfo,
    /// The place of the forward rule, where there is one.
    pub rule: Option<usize>,
    /// The bytes of the response.
    pub response: Vec<u8>,
    /// What the last upstream answered.
    pub answer: Response,
    /// The seconds for which the response is kept.
    pub ttl: u32,
}

/// A query that has been resolved, as mathematical values.
#[verifier::ext_equal]
pub struct AnsweredModel {
    pub query: Seq<u8>,
    pub info: Question,
    pub rule: Option<usize>,
    pub response: Seq<u8>,
    pub answer: Answer,
    pub ttl: u32,
}

impl View for Answered {
    type V = AnsweredModel;

    open spec fn view(&self) -> AnsweredModel {
        AnsweredModel {
            query: self.query@,
            info: self.info@,
            rule: self.rule,
            response: self.response@,
            answer: self.answer@,
            ttl: self.ttl,
        }
    }
}

/// What a response comes to.
pub enum Outcome {
    /// The query gets no reply.
    Fail(ServerError),
    /// The response is an alias, which is followed.
    Follow(Pending),
    /// The query has been resolved.
    Done(Answered),
}

/// What a response comes to, as mathematical values.
#[verifier::ext_equal]
pub enum OutcomeModel {
    Fail(ServerError),
    Follow(PendingModel),
    Done(AnsweredModel),
}

impl View for Outcome {
    type V = OutcomeModel;

    open spec fn view(&self) -> OutcomeModel {
        match self {
            Outcome::Fail(e) => OutcomeModel::Fail(*e),
            Outcome::Follow(pending) => OutcomeModel::Follow(pending@),
            Outcome::Done(answered) => OutcomeModel::Done(answered@),
        }
    }
}

/// Whether an alias leads to a name.
pub open spec fn leads_to(chain: Seq<(Seq<char>, u32)>, target: Seq<char>) -> bool {
    exists|i: int| 0 <= i < chain.len() && (#[trigger] chain[i]).0 == target
}

/// The response to a query, with the aliases that were followed.
pub open spec fn final_response(
    pending: PendingModel,
    response: Seq<u8>,
    answer: Answer,
    ttl: u32,
) -> Result<Seq<u8>, ServerError> {
    if pending.chain.len() == 0 {
        Ok(response)
    } else if !chase_defined(pending.query, pending.chain.len(), response, answer) {
        Err(ServerError::PastEnd)
    } else {
        match chase_bytes(pending.query, pending.chain, response, answer, ttl) {
            Ok(bytes) => Ok(bytes),
            Err(e) => Err(ServerError::Message(e)),
        }
    }
}

/// A query whose name was an alias.
pub open spec fn followed(pending: PendingModel, target: Seq<char>, ttl: u32) -> PendingModel {
    PendingModel {
        current: Question { qname: target, ..pending.current },
        chain: pending.chain.push((target, ttl)),
        depth: (pending.depth + 1) as usize,
        ..pending
    }
}

/// What an upstream's response comes to: addresses resolve the query, and an
/// alias is followed unless it was followed before.
pub open spec fn resolved(
    config: ConfigModel,
    pending: PendingModel,
    response: Seq<u8>,
) -> OutcomeModel {
    match analysis(response, config.cache) {
        Err(e) => OutcomeModel::Fail(ServerError::Message(e)),
        Ok((Answer::Cname(target), ttl)) => if leads_to(pending.chain, target) {
            OutcomeModel::Fail(ServerError::AliasLoop)
        } else {
            OutcomeModel::Follow(followed(pending, target, ttl))
        },
        Ok((answer, ttl)) => match final_response(pending, response, answer, ttl) {
            Err(e) => OutcomeModel::Fail(e),
            Ok(bytes) => OutcomeModel::Done(
                AnsweredModel {
                    query: pending.query,
                    info: pending.info,
                    rule: pending.rule,
                    response: bytes,
                    answer,
                    ttl,
                },
            ),
        },
    }
}

/// Which targets are remembered after an upstream's response: that of an alias
/// that is followed under a rule is learned.
pub open spec fn learned_from(
    config: ConfigModel,
    learned: Map<Seq<char>, ExtraDomainEntry>,
    pending: PendingModel,
    response: Seq<u8>,
    now: u64,
) -> Map<Seq<char>, ExtraDomainEntry> {
    match (resolved(config, pending, response), rule_at(config.rules.forward, pending.rule)) {
        (OutcomeModel::Follow(next), Some(rule)) => learned.insert(
            next.current.qname,
            entry_at(rule.id as usize, now),
        ),
        _ => learned,
    }
}

/// Tells whether an alias leads to a name.
fn chain_leads_to(chain: &Vec<(String, u32)>, target: &str) -> (r: bool)
    ensures
        r == leads_to(links(chain@), target@),
{
    let mut i: usize = 0;
    while i < chain.len()
        invariant
            i <= chain@.len(),
            forall|k: int| 0 <= k < i ==> (#[trigger] links(chain@)[k]).0 != target@,
        decreases chain@.len() - i,
    {
        assert(links(chain@)[i as int].0 == chain@[i as int].0@);
        if same_text(chain[i].0.as_str(), target) {
            return true;
        }
        i += 1;
    }
    false
}

/// A response that can be analyzed has a header, and so has one that is built.
proof fn lemma_done_has_header(config: ConfigModel, pending: PendingModel, response: Seq<u8>)
    ensures
        resolved(config, pending, response) matches OutcomeModel::Done(answered)
            ==> answered.response.len() >= 12,
{
}

/// Takes an upstream's response.
pub fn take_response(
    config: &Config,
    extra: &mut ExtraDomains,
    pending: Pending,
    response: Vec<u8>,
    now: u64,
) -> (r: Outcome)
    requires
        pending.depth <= MAX_DEPTH,
    ensures
        r@ == resolved(config@, pending@, response@),
        final(extra)@ == learned_from(config@, old(extra)@, pending@, response@, now),
        r matches Outcome::Done(answered) ==> answered.response@.len() >= 12,
{
    let ghost model = pending@;
    proof {
        lemma_done_has_header(config@, pending@, response@);
    }
    let (answer, ttl) = match analyze_response(response.as_slice(), &config.cache) {
        Ok(found) => found,
        Err(e) => {
            return Outcome::Fail(ServerError::Message(e));
        },
    };
    match answer {
        Response::Cname(target) => {
            if chain_leads_to(&pending.chain, target.as_str()) {
                return Outcome::Fail(ServerError::AliasLoop);
            }
            match get_rule(config, pending.rule) {
                Some(rule) => {
                    extra.add_domain(target.as_str(), rule.id, now);
                },
                None => {},
            }
            let current: QueryInfo = pending.current.new_qname(target.as_str());
            let ghost before = links(pending.chain@);
            let ghost link = (target@, ttl);
            let mut chain: Vec<(String, u32)> = pending.chain;
            chain.push((target, ttl));
            assert(links(chain@) =~= before.push(link));
            let next: Pending = Pending {
                query: pending.query,
                info: pending.info,
                current,
                rule: pending.rule,
                chain,
                depth: pending.depth + 1,
            };
            assert(next@ =~= followed(model, link.0, ttl));
            Outcome::Follow(next)
        },
        answer => {
            let bytes: Vec<u8> = if pending.chain.len() == 0 {
                response
            } else {
                match chase_response(
                    pending.query.as_slice(),
                    &pending.chain,
                    response.as_slice(),
                    &answer,
                    ttl,
                ) {
                    None => {
                        return Outcome::Fail(ServerError::PastEnd);
                    },
                    Some(Err(e)) => {
                        return Outcome::Fail(ServerError::Message(e));
                    },
                    Some(Ok(bytes)) => bytes,
                }
            };
            Outcome::Done(
                Answered {
                    query: pending.query,
                    info: pending.info,
                    rule: pending.rule,
                    response: bytes,
                    answer,
                    ttl,
                },
            )
        },
    }
}

/// What is added to which nftables set.
pub struct NftUpdate {
    pub family: String,
    pub table: String,
    pub set: String,
    pub elements: String,
}

/// What is added to the nftables set of the rule: the addresses that the set
/// did not have, for twice the time for which the response is kept.
pub open spec fn update_for(config: ConfigModel, answered: AnsweredModel) -> Option<
    (NftModel, Seq<char>),
> {
    match (rule_at(config.rules.forward, answered.rule), answered.answer) {
        (Some(rule), Answer::A(ips)) => match rule.nft_set {
            Some(set) => if ips.len() == 0 {
                None
            } else {
                match addition(set.existing, ips, (answered.ttl * 2) as u64) {
                    Some(elements) => Some((set, elements)),
                    None => None,
                }
            },
            None => None,
        },
        _ => None,
    }
}

/// Says what is added to the nftables set of the rule, if there is anything.
pub fn nft_update(config: &Config, answered: &Answered) -> (r: Option<NftUpdate>)
    ensures
        match update_for(config@, answered@) {
            Some((set, elements)) => r matches Some(u) && u.family@ == set.family && u.table@
                == set.table && u.set@ == set.set && u.elements@ == elements,
            None => r is None,
        },
{
    match (get_rule(config, answered.rule), &answered.answer) {
        (Some(rule), Response::A(ips)) => match &rule.nft_set {
            Some(set) => {
                if ips.len() == 0 {
                    return None;
                }
                match add_to_nft_set(set, ips, answered.ttl as u64 * 2) {
                    Some(elements) => Some(
                        NftUpdate {
                            family: set.family.clone(),
                            table: set.table.clone(),
                            set: set.set.clone(),
                            elements,
                        },
                    ),
                    None => None,
                }
            },
            None => None,
        },
        _ => None,
    }
}

/// The reply to a query that has been resolved: the response under the
/// identifier of the query.
pub open spec fn final_reply(answered: AnsweredModel) -> Seq<u8> {
    answered.query.subrange(0, 2) + answered.response.skip(2)
}

/// What is kept after a query has been resolved: the response without its
/// identifier, for as long as its answers live.
pub open spec fn kept_finally(
    entries: Seq<Entry>,
    limit: nat,
    answered: AnsweredModel,
    now: u64,
) -> Seq<Entry> {
    with_entry(
        entries,
        limit,
        key_of(answered.info),
        (answered.response.skip(2), deadline_of(now, answered.ttl)),
    )
}

/// Keeps the response to a query, without its identifier, and gives the reply.
pub fn finish(cache: &mut Cache, answered: &Answered, now: u64) -> (r: Vec<u8>)
    requires
        answered.query@.len() >= 2,
        answered.response@.len() >= 2,
    ensures
        r@ == final_reply(answered@),
        final(cache)@ == kept_finally(old(cache)@, old(cache).limit(), answered@, now),
        final(cache)@ == with_entry(
            old(cache)@,
            old(cache).limit(),
            key_of(answered@.info),
            (answered@.response.skip(2), deadline_of(now, answered.ttl)),
        ),
        final(cache).limit() == old(cache).limit(),
        old(cache).wf() ==> final(cache).wf(),
{
    let mut rest: Vec<u8> = Vec::new();
    push_range(&mut rest, answered.response.as_slice(), 2, answered.response.len());
    assert(rest@ =~= answered.response@.skip(2));
    let mut reply: Vec<u8> = Vec::new();
    push_range(&mut reply, answered.query.as_slice(), 0, 2);
    push_range(&mut reply, rest.as_slice(), 0, rest.len());
    assert(reply@ =~= final_reply(answered@));
    cache.insert(&answered.info, rest, answered.ttl, now);
    reply
}

} // verus!
