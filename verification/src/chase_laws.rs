//! What holds of the response to a query whose name was an alias.
use crate::addr::Ipv4Addr;
use crate::answers::{
    analysis, answer_of, cached_ttl, findings, lemma_findings_end, Answer, Findings,
};
use crate::chase::{
    alias_record, answer_count, chain_records, chase_bytes, chase_defined, chase_header,
    expanded, extra_addresses, owner_of, rewritten, rewritten_section, sections,
};
use crate::config::CacheConfig;
use crate::dns::{
    first_question, lemma_questions_advance, lemma_questions_window, question_end, DNS_CLASS_IN,
    DNS_TYPE_CNAME,
};
use crate::lifetime::{after_records, cap_outcome, fixed_part};
use crate::name_laws::{
    law_name_reads_back, law_read_name_is_writable, law_written_name_can_be_read,
    law_written_name_is_uncompressed, plain_name, writable_name,
};
use crate::section_laws::{
    at_least, data_changes, law_rewritten_section_reads_back, lemma_record_parts,
    lemma_rewriting_ends, lemma_rewritten_found, lemma_sections_join, whole_target,
};
use crate::wire::{
    be16, be16_bytes, be32, be32_bytes, law_u32_reads_back, name_at, name_bytes, name_end,
    uncompressed, DnsError,
};
use vstd::prelude::*;

verus! {

/// Whether the targets of the aliases can be written, and their lengths too.
/// Every target that was read from a message can be written.
pub open spec fn targets_fit(chain: Seq<(Seq<char>, u32)>) -> bool {
    forall|i: int|
        0 <= i < chain.len() ==> writable_name((#[trigger] chain[i]).0) && name_bytes(
            chain[i].0,
        ).len() <= 0xFFFF
}

/// The longest lifetime of the first `count` aliases.
pub open spec fn longest(chain: Seq<(Seq<char>, u32)>, count: nat) -> u32
    decreases count,
{
    if count == 0 {
        0
    } else {
        let before = longest(chain, (count - 1) as nat);
        if before < chain[count - 1].1 {
            chain[count - 1].1
        } else {
            before
        }
    }
}

/// The records of some aliases stand in front of those of more aliases.
proof fn lemma_chain_prefix(
    qname: Seq<char>,
    chain: Seq<(Seq<char>, u32)>,
    few: nat,
    many: nat,
) -> (more: Seq<u8>)
    requires
        few <= many,
    ensures
        chain_records(qname, chain, many) == chain_records(qname, chain, few) + more,
    decreases many,
{
    if few == many {
        assert(chain_records(qname, chain, many) =~= chain_records(qname, chain, few) + Seq::<
            u8,
        >::empty());
        Seq::empty()
    } else {
        let front = lemma_chain_prefix(qname, chain, few, (many - 1) as nat);
        let last = alias_record(
            owner_of(qname, chain, many - 1),
            chain[many - 1].0,
            chain[many - 1].1,
        );
        assert(chain_records(qname, chain, many) =~= chain_records(qname, chain, few) + (front
            + last));
        front + last
    }
}

/// The type, the class, the lifetime and the length of a record.
pub open spec fn fixed_bytes(rtype: u16, class: u16, ttl: u32, len: u16) -> Seq<u8> {
    be16_bytes(rtype) + be16_bytes(class) + be32_bytes(ttl) + be16_bytes(len)
}

pub proof fn lemma_fixed_bytes(rtype: u16, class: u16, ttl: u32, len: u16)
    ensures
        ({
            let fixed = fixed_bytes(rtype, class, ttl, len);
            &&& fixed.len() == 10
            &&& be16(fixed, 0) == rtype
            &&& be16(fixed, 2) == class
            &&& be32(fixed, 4) == ttl
            &&& be16(fixed, 8) == len
        }),
{
    let fixed = fixed_bytes(rtype, class, ttl, len);
    assert(fixed[0] == be16_bytes(rtype)[0] && fixed[1] == be16_bytes(rtype)[1]);
    assert(fixed[2] == be16_bytes(class)[0] && fixed[3] == be16_bytes(class)[1]);
    assert(fixed[8] == be16_bytes(len)[0] && fixed[9] == be16_bytes(len)[1]);
    law_u32_reads_back(be16_bytes(rtype) + be16_bytes(class), ttl, be16_bytes(len));
}

/// An alias that stands in a message reads back.
proof fn lemma_alias_reads_back(
    before: Seq<u8>,
    owner: Seq<char>,
    target: Seq<char>,
    ttl: u32,
    behind: Seq<u8>,
)
    requires
        writable_name(owner),
        writable_name(target),
        name_bytes(target).len() <= 0xFFFF,
    ensures
        ({
            let data = before + alias_record(owner, target, ttl) + behind;
            let start = before.len() as int;
            let p = start + name_bytes(owner).len();
            &&& plain_name(owner) ==> name_at(data, start) == Ok::<Seq<char>, DnsError>(owner)
            &&& name_end(data, start) == Ok::<int, DnsError>(p)
            &&& p + 10 <= data.len()
            &&& be16(data, p) == DNS_TYPE_CNAME
            &&& be16(data, p + 2) == DNS_CLASS_IN
            &&& be32(data, p + 4) == ttl
            &&& name_at(data, p + 10) is Ok
            &&& plain_name(target) ==> name_at(data, p + 10) == Ok::<Seq<char>, DnsError>(target)
            &&& uncompressed(data, start)
            &&& uncompressed(data, p + 10)
            &&& start + alias_record(owner, target, ttl).len() == p + 10 + be16(data, p + 8)
        }),
{
    let name = name_bytes(owner);
    let rdata = name_bytes(target);
    let len = (rdata.len() % 0x1_0000) as u16;
    let fixed = fixed_bytes(DNS_TYPE_CNAME, DNS_CLASS_IN, ttl, len);
    assert(alias_record(owner, target, ttl) =~= name + fixed + rdata);
    lemma_fixed_bytes(DNS_TYPE_CNAME, DNS_CLASS_IN, ttl, len);
    lemma_record_parts(before, owner, fixed, rdata, behind);
    let front = before + name + fixed;
    law_written_name_can_be_read(front, target, behind);
    law_written_name_is_uncompressed(front, target, behind);
    if plain_name(target) {
        law_name_reads_back(front, target, behind);
    }
}

/// Each alias that was followed stands in a message that holds their records:
/// its owner is the name before it, it leads to its target, and neither of them
/// is compressed.
#[verifier::rlimit(30)]
pub proof fn law_chain_reads_back(
    before: Seq<u8>,
    qname: Seq<char>,
    chain: Seq<(Seq<char>, u32)>,
    behind: Seq<u8>,
    index: nat,
)
    requires
        writable_name(qname),
        targets_fit(chain),
        index < chain.len(),
    ensures
        ({
            let data = before + chain_records(qname, chain, chain.len()) + behind;
            let at = (before.len() + chain_records(qname, chain, index).len()) as int;
            let p = name_end(data, at)->Ok_0;
            let owner = owner_of(qname, chain, index as int);
            let target = chain[index as int].0;
            &&& plain_name(owner) ==> name_at(data, at) == Ok::<Seq<char>, DnsError>(owner)
            &&& name_end(data, at) is Ok
            &&& p + 10 <= data.len()
            &&& be16(data, p) == DNS_TYPE_CNAME
            &&& be16(data, p + 2) == DNS_CLASS_IN
            &&& be32(data, p + 4) == chain[index as int].1
            &&& name_at(data, p + 10) is Ok
            &&& plain_name(target) ==> name_at(data, p + 10) == Ok::<Seq<char>, DnsError>(target)
            &&& uncompressed(data, at)
            &&& uncompressed(data, p + 10)
            &&& p + 10 + be16(data, p + 8) == before.len() + chain_records(
                qname,
                chain,
                index + 1,
            ).len()
        }),
{
    let more = lemma_chain_prefix(qname, chain, index + 1, chain.len());
    let owner = owner_of(qname, chain, index as int);
    let target = chain[index as int].0;
    let ttl = chain[index as int].1;
    let front = before + chain_records(qname, chain, index);
    assert(writable_name(owner)) by {
        if index > 0 {
            assert(writable_name(chain[index - 1].0));
        }
    }
    assert(chain_records(qname, chain, index + 1) == chain_records(qname, chain, index)
        + alias_record(owner, target, ttl));
    assert(before + chain_records(qname, chain, chain.len()) + behind =~= front + alias_record(
        owner,
        target,
        ttl,
    ) + (more + behind));
    lemma_alias_reads_back(front, owner, target, ttl, more + behind);
}

/// What is found in the records of the aliases.
pub proof fn lemma_chain_findings(
    before: Seq<u8>,
    qname: Seq<char>,
    chain: Seq<(Seq<char>, u32)>,
    behind: Seq<u8>,
    count: nat,
)
    requires
        writable_name(qname),
        targets_fit(chain),
        count <= chain.len(),
    ensures
        findings(
            before + chain_records(qname, chain, chain.len()) + behind,
            before.len() as int,
            count,
        ) matches Ok(f) && f.at == before.len() + chain_records(qname, chain, count).len()
            && f.max_ttl == longest(chain, count) && !f.has_aaaa && f.a_records == Seq::<
            Ipv4Addr,
        >::empty() && (f.cname_target is Some <==> count > 0),
    decreases count,
{
    if count > 0 {
        let last = (count - 1) as nat;
        lemma_chain_findings(before, qname, chain, behind, last);
        law_chain_reads_back(before, qname, chain, behind, last);
    }
}

/// How many records a message holds behind its questions.
pub open spec fn record_count(source: Seq<u8>) -> nat {
    (be16(source, 6) + be16(source, 8) + be16(source, 10)) as nat
}

/// The three sections of the last response are rewritten as one.
proof fn lemma_three_sections(source: Seq<u8>, at: int, an: nat, ns: nat, ar: nat)
    requires
        rewritten_section(source, at, an) is Ok,
        ({
            let authority = after_records(source, at, an)->Ok_0;
            let additional = after_records(source, authority, ns)->Ok_0;
            &&& rewritten_section(source, authority, ns) is Ok
            &&& rewritten_section(source, additional, ar) is Ok
        }),
    ensures
        ({
            let authority = after_records(source, at, an)->Ok_0;
            let additional = after_records(source, authority, ns)->Ok_0;
            &&& rewritten_section(source, at, an + ns + ar) is Ok
            &&& rewritten_section(source, at, an + ns + ar)->Ok_0.0 == rewritten_section(
                source,
                at,
                an,
            )->Ok_0.0 + rewritten_section(source, authority, ns)->Ok_0.0 + rewritten_section(
                source,
                additional,
                ar,
            )->Ok_0.0
        }),
{
    let authority = after_records(source, at, an)->Ok_0;
    lemma_rewriting_ends(source, at, an);
    lemma_rewriting_ends(source, authority, ns);
    lemma_sections_join(source, at, an, ns);
    lemma_sections_join(source, at, an + ns, ar);
}

proof fn lemma_five_parts(front: Seq<u8>, aliases: Seq<u8>, a: Seq<u8>, b: Seq<u8>, c: Seq<u8>)
    ensures
        front + (aliases + a) + (b + c) == front + aliases + (a + b + c),
{
    assert(front + (aliases + a) + (b + c) =~= front + aliases + (a + b + c));
}

/// What the response to a query whose name was an alias is made of: what stands
/// in front of the answers, the aliases, and the answers and the other records
/// of the last response.
proof fn lemma_chase_parts(
    query: Seq<u8>,
    chain: Seq<(Seq<char>, u32)>,
    source: Seq<u8>,
    answer: Answer,
    ttl: u32,
) -> (front: Seq<u8>)
    requires
        chase_bytes(query, chain, source, answer, ttl) is Ok,
        extra_addresses(source, answer).len() == 0,
        chase_defined(query, chain.len(), source, answer),
    ensures
        ({
            let reply = chase_bytes(query, chain, source, answer, ttl)->Ok_0;
            let answers = question_end(source)->Ok_0;
            let end = question_end(query)->Ok_0;
            let aliases = chain_records(first_question(query)->Ok_0.qname, chain, chain.len());
            &&& query.len() >= 12
            &&& question_end(query) is Ok
            &&& first_question(query) is Ok
            &&& 12 <= end <= query.len()
            &&& answer_count(chain.len(), source, answer) <= 0xFFFF
            &&& question_end(source) is Ok
            &&& rewritten_section(source, answers, be16(source, 6) as nat) is Ok
            &&& rewritten_section(source, answers, record_count(source)) is Ok
            &&& front == chase_header(query, chain.len(), source, answer) + query.subrange(12, end)
            &&& reply == front + aliases + rewritten_section(
                source,
                answers,
                record_count(source),
            )->Ok_0.0
        }),
{
    let reply = chase_bytes(query, chain, source, answer, ttl)->Ok_0;
    let (end, answers, authority, additional) = sections(query, source)->Ok_0;
    let (an, ns, ar) = (be16(source, 6) as nat, be16(source, 8) as nat, be16(source, 10) as nat);
    let front = chase_header(query, chain.len(), source, answer) + query.subrange(12, end);
    let aliases = chain_records(first_question(query)->Ok_0.qname, chain, chain.len());
    lemma_questions_advance(query, 12, be16(query, 4) as nat);
    lemma_three_sections(source, answers, an, ns, ar);
    lemma_five_parts(
        front,
        aliases,
        rewritten_section(source, answers, an)->Ok_0.0,
        rewritten_section(source, authority, ns)->Ok_0.0,
        rewritten_section(source, additional, ar)->Ok_0.0,
    );
    front
}

/// The answers of the last response stand in front of its other records.
proof fn lemma_answers_first(source: Seq<u8>, at: int, few: nat, many: nat) -> (more: Seq<u8>)
    requires
        few <= many,
        rewritten_section(source, at, many) is Ok,
    ensures
        rewritten_section(source, at, many)->Ok_0.0 == rewritten_section(source, at, few)->Ok_0.0
            + more,
    decreases many,
{
    let all = rewritten_section(source, at, many)->Ok_0.0;
    if few == many {
        assert(all =~= all + Seq::<u8>::empty());
        Seq::empty()
    } else {
        let last = (many - 1) as nat;
        let front = lemma_answers_first(source, at, few, last);
        let p = rewritten_section(source, at, last)->Ok_0.1;
        let record = rewritten(source, p)->Ok_0.0;
        assert(all =~= rewritten_section(source, at, few)->Ok_0.0 + (front + record));
        front + record
    }
}

/// What stands in front of the answers.
pub proof fn lemma_chase_front(
    query: Seq<u8>,
    chain_len: nat,
    source: Seq<u8>,
    answer: Answer,
    behind: Seq<u8>,
)
    requires
        query.len() >= 12,
        question_end(query) matches Ok(end) && end <= query.len(),
        answer_count(chain_len, source, answer) <= 0xFFFF,
    ensures
        ({
            let end = question_end(query)->Ok_0;
            let front = chase_header(query, chain_len, source, answer) + query.subrange(12, end);
            let reply = front + behind;
            &&& 12 <= end
            &&& front.len() == end
            &&& be16(reply, 0) == be16(query, 0)
            &&& reply[2] == 0x80 + query[2] % 2
            &&& reply[3] == 0x80 + source[3] % 16
            &&& be16(reply, 4) == be16(query, 4)
            &&& be16(reply, 8) == be16(source, 8)
            &&& be16(reply, 10) == be16(source, 10)
            &&& be16(reply, 6) == answer_count(chain_len, source, answer)
            &&& question_end(reply) == Ok::<int, DnsError>(end)
            &&& reply.subrange(12, end) == query.subrange(12, end)
        }),
{
    let end = question_end(query)->Ok_0;
    let header = chase_header(query, chain_len, source, answer);
    let front = header + query.subrange(12, end);
    let reply = front + behind;
    lemma_questions_advance(query, 12, be16(query, 4) as nat);
    assert(header.len() == 12);
    assert forall|k: int| 12 <= k < end implies query[k] == reply[k] by {
        assert(query.subrange(12, end)[k - 12] == query[k]);
    }
    assert(reply[0] == query[0] && reply[1] == query[1]);
    assert(reply[2] == 0x80 + query[2] % 2);
    assert(reply[3] == 0x80 + source[3] % 16);
    let questions = be16(query, 4);
    assert(reply[4] == be16_bytes(questions)[0] && reply[5] == be16_bytes(questions)[1]);
    assert(be16(reply, 4) == questions);
    let total = answer_count(chain_len, source, answer) as u16;
    assert(reply[6] == be16_bytes(total)[0] && reply[7] == be16_bytes(total)[1]);
    let (ns, ar) = (be16(source, 8), be16(source, 10));
    assert(reply[8] == be16_bytes(ns)[0] && reply[9] == be16_bytes(ns)[1]);
    assert(reply[10] == be16_bytes(ar)[0] && reply[11] == be16_bytes(ar)[1]);
    lemma_questions_window(query, reply, 12, questions as nat);
    assert(reply.subrange(12, end) =~= query.subrange(12, end));
}

/// The addresses of a response stand in its answers.
pub proof fn lemma_addresses_need_answers(source: Seq<u8>, cache: CacheConfig)
    ensures
        analysis(source, cache) matches Ok((answer, _)) ==> extra_addresses(source, answer).len()
            == 0,
{
    if let Ok((answer, _)) = analysis(source, cache) {
        if be16(source, 6) == 0 {
            let f = findings(source, question_end(source)->Ok_0, 0)->Ok_0;
            assert(answer == answer_of(f));
        }
    }
}

/// What is found in the answers of the response: the aliases, and then what the
/// last response holds.
proof fn lemma_chase_findings(
    front: Seq<u8>,
    qname: Seq<char>,
    chain: Seq<(Seq<char>, u32)>,
    source: Seq<u8>,
    at: int,
    count: nat,
    behind: Seq<u8>,
)
    requires
        chain.len() > 0,
        writable_name(qname),
        targets_fit(chain),
        rewritten_section(source, at, count) is Ok,
        findings(source, at, count) is Ok,
    ensures
        ({
            let data = front + chain_records(qname, chain, chain.len()) + rewritten_section(
                source,
                at,
                count,
            )->Ok_0.0 + behind;
            let s = findings(source, at, count)->Ok_0;
            findings(data, front.len() as int, chain.len() + count) matches Ok(g) && g.max_ttl
                == at_least(longest(chain, chain.len()), s.max_ttl) && g.has_aaaa == s.has_aaaa
                && g.a_records == s.a_records && g.cname_target is Some
        }),
{
    let aliases = chain_records(qname, chain, chain.len());
    let bytes = rewritten_section(source, at, count)->Ok_0.0;
    let data = front + aliases + bytes + behind;
    let s = findings(source, at, count)->Ok_0;
    lemma_chain_findings(front, qname, chain, bytes + behind, chain.len());
    assert(data =~= front + aliases + (bytes + behind));
    lemma_rewritten_found(
        front + aliases,
        source,
        at,
        count,
        behind,
        front.len() as int,
        chain.len(),
    );
    assert(Seq::<Ipv4Addr>::empty() + s.a_records =~= s.a_records);
}

/// What a response is found to answer whose answers are aliases, and then those
/// of another response.
proof fn lemma_answer_behind_aliases(f: Findings, g: Findings)
    requires
        answer_of(f) !is Cname,
        g.has_aaaa == f.has_aaaa,
        g.a_records == f.a_records,
        g.cname_target is Some,
    ensures
        has_address(answer_of(f)) ==> answer_of(g) == answer_of(f),
        !has_address(answer_of(f)) ==> answer_of(g) is Cname,
{
}

/// Whether an answer gives an address.
pub open spec fn has_address(answer: Answer) -> bool {
    match answer {
        Answer::A(ips) => ips.len() > 0,
        Answer::Aaaa => true,
        Answer::Cname(_) => false,
    }
}

/// A part in the middle of a sequence.
proof fn lemma_middle(front: Seq<u8>, middle: Seq<u8>, bytes: Seq<u8>, more: Seq<u8>)
    ensures
        front + middle + (bytes + more) == front + (middle + (bytes + more)),
        front + middle + (bytes + more) == front + middle + bytes + more,
        (front + middle + (bytes + more)).skip(front.len() as int).take(middle.len() as int)
            == middle,
{
    let all = front + middle + (bytes + more);
    assert(all =~= front + (middle + (bytes + more)));
    assert(all =~= front + middle + bytes + more);
    assert(all.skip(front.len() as int).take(middle.len() as int) =~= middle);
}

/// What a message is found to answer whose answers are aliases and those of the
/// last response.
proof fn lemma_parts_answer_the_query(
    front: Seq<u8>,
    qname: Seq<char>,
    chain: Seq<(Seq<char>, u32)>,
    source: Seq<u8>,
    answer: Answer,
    ttl: u32,
    cache: CacheConfig,
    more: Seq<u8>,
    reply: Seq<u8>,
)
    requires
        rewritten_section(source, question_end(source)->Ok_0, be16(source, 6) as nat) is Ok,
        reply == front + chain_records(qname, chain, chain.len()) + rewritten_section(
            source,
            question_end(source)->Ok_0,
            be16(source, 6) as nat,
        )->Ok_0.0 + more,
        front.len() >= 12,
        question_end(reply) == Ok::<int, DnsError>(front.len() as int),
        be16(reply, 6) == chain.len() + be16(source, 6),
        0 < chain.len(),
        writable_name(qname),
        targets_fit(chain),
        analysis(source, cache) == Ok::<(Answer, u32), DnsError>((answer, ttl)),
        answer !is Cname,
    ensures
        ({
            let last = findings(source, question_end(source)->Ok_0, be16(source, 6) as nat)->Ok_0;
            let kept = cached_ttl(cache, at_least(longest(chain, chain.len()), last.max_ttl));
            &&& has_address(answer) ==> analysis(reply, cache) == Ok::<(Answer, u32), DnsError>(
                (answer, kept),
            )
            &&& !has_address(answer) ==> (analysis(reply, cache) matches Ok((Answer::Cname(_), t))
                && t == kept)
            &&& cap_outcome(reply) is Ok
        }),
{
    let at = question_end(source)->Ok_0;
    let count = be16(source, 6) as nat;
    lemma_chase_findings(front, qname, chain, source, at, count, more);
    let f = findings(source, at, count)->Ok_0;
    let g = findings(reply, front.len() as int, chain.len() + count)->Ok_0;
    lemma_answer_behind_aliases(f, g);
    lemma_findings_end(reply, front.len() as int, chain.len() + count);
}

/// Whether a reply answers a query behind some aliases with the answers of a
/// response: it has the identifier and the questions of the query, is marked as a
/// response with the code of the other one, and has the aliases and the answers of
/// that one as its answers.
pub open spec fn answers_behind(
    query: Seq<u8>,
    aliases: nat,
    response: Seq<u8>,
    reply: Seq<u8>,
) -> bool {
    let end = question_end(query)->Ok_0;
    &&& question_end(query) is Ok
    &&& 12 <= end <= query.len()
    &&& end <= reply.len()
    &&& be16(reply, 0) == be16(query, 0)
    &&& reply[2] == 0x80 + query[2] % 2
    &&& reply[3] == 0x80 + response[3] % 16
    &&& be16(reply, 4) == be16(query, 4)
    &&& question_end(reply) == Ok::<int, DnsError>(end)
    &&& reply.subrange(12, end) == query.subrange(12, end)
    &&& be16(reply, 6) == aliases + be16(response, 6)
    &&& be16(reply, 8) == be16(response, 8)
    &&& be16(reply, 10) == be16(response, 10)
}

/// What holds of a message that is made of a header, questions, aliases and two
/// parts behind them.
proof fn lemma_shape_of(
    query: Seq<u8>,
    chain_len: nat,
    source: Seq<u8>,
    answer: Answer,
    front: Seq<u8>,
    aliases: Seq<u8>,
    bytes: Seq<u8>,
    more: Seq<u8>,
    reply: Seq<u8>,
)
    requires
        chain_len <= 0xFFFF,
        extra_addresses(source, answer).len() == 0,
        query.len() >= 12,
        question_end(query) matches Ok(end) && end <= query.len(),
        answer_count(chain_len, source, answer) <= 0xFFFF,
        front == chase_header(query, chain_len, source, answer) + query.subrange(
            12,
            question_end(query)->Ok_0,
        ),
        reply == front + aliases + (bytes + more),
    ensures
        ({
            let end = question_end(query)->Ok_0;
            &&& 12 <= end
            &&& front.len() == end
            &&& reply == front + aliases + bytes + more
            &&& answers_behind(query, chain_len, source, reply)
            &&& reply.skip(end).take(aliases.len() as int) == aliases
        }),
{
    lemma_middle(front, aliases, bytes, more);
    lemma_chase_front(query, chain_len, source, answer, aliases + (bytes + more));
}

/// What holds of the response beside what it answers, and what stands in it in
/// front of the aliases and behind the answers.
proof fn lemma_chase_shape(
    query: Seq<u8>,
    chain: Seq<(Seq<char>, u32)>,
    source: Seq<u8>,
    answer: Answer,
    ttl: u32,
) -> (r: (Seq<u8>, Seq<u8>))
    requires
        chain.len() <= 0xFFFF,
        chase_bytes(query, chain, source, answer, ttl) is Ok,
        extra_addresses(source, answer).len() == 0,
        chase_defined(query, chain.len(), source, answer),
    ensures
        ({
            let reply = chase_bytes(query, chain, source, answer, ttl)->Ok_0;
            let end = question_end(query)->Ok_0;
            let aliases = chain_records(first_question(query)->Ok_0.qname, chain, chain.len());
            let section = rewritten_section(
                source,
                question_end(source)->Ok_0,
                be16(source, 6) as nat,
            );
            &&& first_question(query) is Ok
            &&& 12 <= end
            &&& r.0.len() == end
            &&& section is Ok
            &&& reply == r.0 + aliases + section->Ok_0.0 + r.1
            &&& answers_behind(query, chain.len(), source, reply)
            &&& reply.skip(end).take(aliases.len() as int) == aliases
        }),
{
    let front = lemma_chase_parts(query, chain, source, answer, ttl);
    let at = question_end(source)->Ok_0;
    let count = be16(source, 6) as nat;
    let aliases = chain_records(first_question(query)->Ok_0.qname, chain, chain.len());
    let bytes = rewritten_section(source, at, count)->Ok_0.0;
    let more = lemma_answers_first(source, at, count, record_count(source));
    let reply = chase_bytes(query, chain, source, answer, ttl)->Ok_0;
    lemma_shape_of(
        query,
        chain.len(),
        source,
        answer,
        front,
        aliases,
        bytes,
        more,
        reply,
    );
    (front, more)
}

/// The response to a query whose name was an alias carries the identifier and
/// the questions of the query, the code of the last response, the aliases and
/// then as many answers as the last response. Its answers can be read: where the
/// last response gave an address, it answers what the last response answered,
/// and where it gave none, it is an alias without an address. It is kept for the
/// longest lifetime of its answers, which can be replaced.
pub proof fn law_chase_answers_the_query(
    query: Seq<u8>,
    chain: Seq<(Seq<char>, u32)>,
    source: Seq<u8>,
    answer: Answer,
    ttl: u32,
    cache: CacheConfig,
)
    requires
        0 < chain.len() <= 0xFFFF,
        targets_fit(chain),
        analysis(source, cache) == Ok::<(Answer, u32), DnsError>((answer, ttl)),
        answer !is Cname,
        chase_defined(query, chain.len(), source, answer),
    ensures
        chase_bytes(query, chain, source, answer, ttl) matches Ok(reply) ==> {
            let end = question_end(query)->Ok_0;
            let last = findings(source, question_end(source)->Ok_0, be16(source, 6) as nat)->Ok_0;
            let aliases = chain_records(first_question(query)->Ok_0.qname, chain, chain.len());
            let kept = cached_ttl(cache, at_least(longest(chain, chain.len()), last.max_ttl));
            &&& answers_behind(query, chain.len(), source, reply)
            &&& reply.skip(end).take(aliases.len() as int) == aliases
            &&& has_address(answer) ==> analysis(reply, cache) == Ok::<(Answer, u32), DnsError>(
                (answer, kept),
            )
            &&& !has_address(answer) ==> (analysis(reply, cache) matches Ok((Answer::Cname(_), t))
                && t == kept)
            &&& cap_outcome(reply) is Ok
        },
{
    if chase_bytes(query, chain, source, answer, ttl) is Ok {
        lemma_addresses_need_answers(source, cache);
        let (front, more) = lemma_chase_shape(query, chain, source, answer, ttl);
        let reply = chase_bytes(query, chain, source, answer, ttl)->Ok_0;
        let qname = first_question(query)->Ok_0.qname;
        law_read_name_is_writable(query, 12);
        lemma_parts_answer_the_query(
            front,
            qname,
            chain,
            source,
            answer,
            ttl,
            cache,
            more,
            reply,
        );
    }
}

/// Each record of the response to a query whose name was an alias stands behind
/// the others, and no alias among them is compressed: neither its owner nor its
/// target, where that can be read. First come the aliases that were followed:
/// each leads from the name before it to its target. Then come the records of
/// the last response, with their types, classes, lifetimes and data, but for the
/// targets of aliases that were written out: these read as in the last response.
/// Owners and targets read so where they could be written so that they read back.
pub proof fn law_chase_records_read_back(
    query: Seq<u8>,
    chain: Seq<(Seq<char>, u32)>,
    source: Seq<u8>,
    answer: Answer,
    ttl: u32,
    index: nat,
)
    requires
        extra_addresses(source, answer).len() == 0,
        targets_fit(chain),
        chase_defined(query, chain.len(), source, answer),
        index < chain.len() + record_count(source),
    ensures
        chase_bytes(query, chain, source, answer, ttl) matches Ok(reply) ==> {
            let end = question_end(query)->Ok_0;
            let p = after_records(reply, end, index)->Ok_0;
            let r = fixed_part(reply, end, index)->Ok_0;
            let qname = first_question(query)->Ok_0.qname;
            let at = question_end(source)->Ok_0;
            let place = (index - chain.len()) as nat;
            let from = after_records(source, at, place)->Ok_0;
            let q = fixed_part(source, at, place)->Ok_0;
            &&& after_records(reply, end, index) is Ok
            &&& fixed_part(reply, end, index) is Ok
            &&& after_records(reply, end, index + 1) is Ok
            &&& uncompressed(reply, p)
            &&& index < chain.len() ==> {
                let owner = owner_of(qname, chain, index as int);
                let target = chain[index as int].0;
                &&& be16(reply, r) == DNS_TYPE_CNAME
                &&& be16(reply, r + 2) == DNS_CLASS_IN
                &&& be32(reply, r + 4) == chain[index as int].1
                &&& uncompressed(reply, r + 10)
                &&& plain_name(owner) ==> name_at(reply, p) == Ok::<Seq<char>, DnsError>(owner)
                &&& plain_name(target) ==> name_at(reply, r + 10) == Ok::<Seq<char>, DnsError>(
                    target,
                )
            }
            &&& index >= chain.len() ==> {
                &&& after_records(source, at, place) is Ok
                &&& fixed_part(source, at, place) is Ok
                &&& be16(reply, r) == be16(source, q)
                &&& be16(reply, r + 2) == be16(source, q + 2)
                &&& be32(reply, r + 4) == be32(source, q + 4)
                &&& name_at(source, from) matches Ok(owner) && (plain_name(owner) ==> name_at(
                    reply,
                    p,
                ) == name_at(source, from))
                &&& reply.subrange(r + 10, r + 10 + be16(reply, r + 8)) == (if data_changes(
                    source,
                    q,
                ) {
                    expanded(source, q + 10, q + 10 + be16(source, q + 8))
                } else {
                    source.subrange(q + 10, q + 10 + be16(source, q + 8))
                })
                &&& be16(source, q) == DNS_TYPE_CNAME && whole_target(
                    source,
                    q + 10,
                    q + 10 + be16(source, q + 8),
                ) ==> {
                    &&& uncompressed(reply, r + 10)
                    &&& uncompressed(source, q + 10) || plain_name(name_at(source, q + 10)->Ok_0)
                        ==> name_at(reply, r + 10) == name_at(source, q + 10)
                }
            }
        },
{
    if chase_bytes(query, chain, source, answer, ttl) is Ok {
        let front = lemma_chase_parts(query, chain, source, answer, ttl);
        let reply = chase_bytes(query, chain, source, answer, ttl)->Ok_0;
        let qname = first_question(query)->Ok_0.qname;
        let at = question_end(source)->Ok_0;
        let many = record_count(source);
        let aliases = chain_records(qname, chain, chain.len());
        let all = rewritten_section(source, at, many)->Ok_0.0;
        let none = Seq::<u8>::empty();
        lemma_chase_front(query, chain.len(), source, answer, aliases + all);
        assert(reply =~= front + aliases + all);
        law_read_name_is_writable(query, 12);
        let start = front.len() as int;
        if index < chain.len() {
            lemma_chain_findings(front, qname, chain, all, index);
            lemma_findings_end(reply, start, index);
            lemma_chain_findings(front, qname, chain, all, index + 1);
            lemma_findings_end(reply, start, index + 1);
            law_chain_reads_back(front, qname, chain, all, index);
        } else {
            lemma_chain_findings(front, qname, chain, all, chain.len());
            lemma_findings_end(reply, start, chain.len());
            assert(reply =~= front + aliases + all + none);
            let place = (index - chain.len()) as nat;
            law_rewritten_section_reads_back(
                front + aliases,
                source,
                at,
                many,
                none,
                start,
                chain.len(),
                place,
            );
            assert(chain.len() + place == index);
        }
    }
}

} // verus!
