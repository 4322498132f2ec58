//! What holds of addresses that are written out behind aliases.
use crate::addr::Ipv4Addr;
use crate::answers::{lemma_findings_end, Answer};
use crate::chase::{
    address_record, address_records, answer_count, chain_records, chase_bytes, chase_defined,
    chase_header, chase_tail, extra_addresses, owner_of, sections,
};
use crate::chase_laws::{
    fixed_bytes, lemma_chain_findings, lemma_chase_front, lemma_fixed_bytes, targets_fit,
};
use crate::dns::{first_question, question_end};
use crate::lifetime::{after_records, fixed_part};
use crate::name_laws::{law_read_name_is_writable, plain_name, writable_name};
use crate::section_laws::lemma_record_parts;
use crate::wire::{be16, be32, law_u32_reads_back, name_at, name_bytes, name_end, DnsError};
use vstd::prelude::*;

verus! {

/// An address that stands in a message reads back.
proof fn lemma_address_reads_back(
    before: Seq<u8>,
    owner: Seq<char>,
    ip: Ipv4Addr,
    ttl: u32,
    behind: Seq<u8>,
)
    requires
        writable_name(owner),
    ensures
        ({
            let data = before + address_record(owner, ip, ttl) + behind;
            let start = before.len() as int;
            let p = start + name_bytes(owner).len();
            &&& plain_name(owner) ==> name_at(data, start) == Ok::<Seq<char>, DnsError>(owner)
            &&& name_end(data, start) == Ok::<int, DnsError>(p)
            &&& p + 14 <= data.len()
            &&& be16(data, p) == 1
            &&& be16(data, p + 2) == 1
            &&& be32(data, p + 4) == ttl
            &&& be16(data, p + 8) == 4
            &&& be32(data, p + 10) == ip.bits
            &&& start + address_record(owner, ip, ttl).len() == p + 14
        }),
{
    let name = name_bytes(owner);
    let rdata = ip.bytes();
    let fixed = fixed_bytes(1, 1, ttl, 4);
    assert(address_record(owner, ip, ttl) =~= name + fixed + rdata);
    lemma_fixed_bytes(1, 1, ttl, 4);
    lemma_record_parts(before, owner, fixed, rdata, behind);
    law_u32_reads_back(before + name + fixed, ip.bits, behind);
}

/// The records of some addresses stand in front of those of more addresses.
proof fn lemma_addresses_prefix(
    owner: Seq<char>,
    ips: Seq<Ipv4Addr>,
    ttl: u32,
    few: nat,
    many: nat,
) -> (more: Seq<u8>)
    requires
        few <= many,
    ensures
        address_records(owner, ips, ttl, many) == address_records(owner, ips, ttl, few) + more,
    decreases many,
{
    let all = address_records(owner, ips, ttl, many);
    let some = address_records(owner, ips, ttl, few);
    if few == many {
        assert(all =~= some + Seq::<u8>::empty());
        Seq::empty()
    } else {
        let front = lemma_addresses_prefix(owner, ips, ttl, few, (many - 1) as nat);
        let last = address_record(owner, ips[many - 1], ttl);
        assert(all =~= some + (front + last));
        front + last
    }
}

/// Each address stands in a message that holds the records of all.
proof fn lemma_addresses_read_back(
    before: Seq<u8>,
    owner: Seq<char>,
    ips: Seq<Ipv4Addr>,
    ttl: u32,
    behind: Seq<u8>,
    index: nat,
)
    requires
        writable_name(owner),
        index < ips.len(),
    ensures
        ({
            let data = before + address_records(owner, ips, ttl, ips.len()) + behind;
            let at = (before.len() + address_records(owner, ips, ttl, index).len()) as int;
            let p = name_end(data, at)->Ok_0;
            &&& plain_name(owner) ==> name_at(data, at) == Ok::<Seq<char>, DnsError>(owner)
            &&& name_end(data, at) is Ok
            &&& p + 14 <= data.len()
            &&& be16(data, p) == 1
            &&& be16(data, p + 2) == 1
            &&& be32(data, p + 4) == ttl
            &&& be16(data, p + 8) == 4
            &&& be32(data, p + 10) == ips[index as int].bits
            &&& p + 14 == before.len() + address_records(owner, ips, ttl, index + 1).len()
        }),
{
    let more = lemma_addresses_prefix(owner, ips, ttl, index + 1, ips.len());
    let ip = ips[index as int];
    let record = address_record(owner, ip, ttl);
    let front = before + address_records(owner, ips, ttl, index);
    assert(before + address_records(owner, ips, ttl, ips.len()) + behind =~= front + record + (more
        + behind));
    lemma_address_reads_back(front, owner, ip, ttl, more + behind);
}

/// The records of addresses follow each other.
proof fn lemma_addresses_follow(
    before: Seq<u8>,
    owner: Seq<char>,
    ips: Seq<Ipv4Addr>,
    ttl: u32,
    behind: Seq<u8>,
    at: int,
    skipped: nat,
    count: nat,
)
    requires
        writable_name(owner),
        count <= ips.len(),
        after_records(
            before + address_records(owner, ips, ttl, ips.len()) + behind,
            at,
            skipped,
        ) == Ok::<int, DnsError>(before.len() as int),
    ensures
        after_records(
            before + address_records(owner, ips, ttl, ips.len()) + behind,
            at,
            skipped + count,
        ) == Ok::<int, DnsError>(
            (before.len() + address_records(owner, ips, ttl, count).len()) as int,
        ),
    decreases count,
{
    if count > 0 {
        let last = (count - 1) as nat;
        lemma_addresses_follow(before, owner, ips, ttl, behind, at, skipped, last);
        lemma_addresses_read_back(before, owner, ips, ttl, behind, last);
        assert((skipped + count - 1) as nat == skipped + last);
    }
}

/// Whether the record with an index holds an address that a name owns.
pub open spec fn holds_address(
    reply: Seq<u8>,
    end: int,
    index: nat,
    owner: Seq<char>,
    ip: Ipv4Addr,
    ttl: u32,
) -> bool {
    let p = after_records(reply, end, index)->Ok_0;
    let r = fixed_part(reply, end, index)->Ok_0;
    &&& after_records(reply, end, index) is Ok
    &&& fixed_part(reply, end, index) is Ok
    &&& plain_name(owner) ==> name_at(reply, p) == Ok::<Seq<char>, DnsError>(owner)
    &&& be16(reply, r) == 1
    &&& be16(reply, r + 2) == 1
    &&& be32(reply, r + 4) == ttl
    &&& be16(reply, r + 8) == 4
    &&& be32(reply, r + 10) == ip.bits
}

proof fn lemma_addresses_behind_aliases(
    front: Seq<u8>,
    qname: Seq<char>,
    chain: Seq<(Seq<char>, u32)>,
    ips: Seq<Ipv4Addr>,
    ttl: u32,
    tail: Seq<u8>,
    reply: Seq<u8>,
    index: nat,
)
    requires
        chain.len() > 0,
        writable_name(qname),
        targets_fit(chain),
        index < ips.len(),
        reply == front + (chain_records(qname, chain, chain.len()) + address_records(
            chain.last().0,
            ips,
            ttl,
            ips.len(),
        )) + tail,
    ensures
        holds_address(
            reply,
            front.len() as int,
            chain.len() + index,
            chain.last().0,
            ips[index as int],
            ttl,
        ),
{
    let owner = chain.last().0;
    let end = front.len() as int;
    let aliases = chain_records(qname, chain, chain.len());
    let addresses = address_records(owner, ips, ttl, ips.len());
    assert(writable_name(chain[chain.len() - 1].0));
    assert(reply =~= front + aliases + (addresses + tail));
    assert(reply =~= (front + aliases) + addresses + tail);
    lemma_chain_findings(front, qname, chain, addresses + tail, chain.len());
    lemma_findings_end(reply, end, chain.len());
    lemma_addresses_follow(front + aliases, owner, ips, ttl, tail, end, chain.len(), index);
    lemma_addresses_read_back(front + aliases, owner, ips, ttl, tail, index);
}

/// Whether a reply has the identifier and the questions of a query, and a number of
/// answers.
pub open spec fn answers_with(query: Seq<u8>, count: nat, reply: Seq<u8>) -> bool {
    let end = question_end(query)->Ok_0;
    &&& question_end(reply) == Ok::<int, DnsError>(end)
    &&& reply.subrange(12, end) == query.subrange(12, end)
    &&& be16(reply, 0) == be16(query, 0)
    &&& be16(reply, 6) == count
}

/// What the reply is made of where addresses are written out.
proof fn lemma_reply_parts(
    query: Seq<u8>,
    chain: Seq<(Seq<char>, u32)>,
    source: Seq<u8>,
    ips: Seq<Ipv4Addr>,
    ttl: u32,
) -> (r: (Seq<u8>, Seq<u8>))
    requires
        0 < chain.len(),
        be16(source, 6) == 0,
        0 < ips.len(),
        chase_defined(query, chain.len(), source, Answer::A(ips)),
        chase_bytes(query, chain, source, Answer::A(ips), ttl) is Ok,
    ensures
        query.len() >= 12,
        question_end(query) matches Ok(end) && end <= query.len(),
        first_question(query) is Ok,
        answer_count(chain.len(), source, Answer::A(ips)) <= 0xFFFF,
        r.0 == chase_header(query, chain.len(), source, Answer::A(ips)) + query.subrange(
            12,
            question_end(query)->Ok_0,
        ),
        chase_bytes(query, chain, source, Answer::A(ips), ttl)->Ok_0 == r.0 + (chain_records(
            first_question(query)->Ok_0.qname,
            chain,
            chain.len(),
        ) + address_records(chain.last().0, ips, ttl, ips.len())) + r.1,
{
    let (end, answers, authority, additional) = sections(query, source)->Ok_0;
    let qname = first_question(query)->Ok_0.qname;
    assert(extra_addresses(source, Answer::A(ips)) == ips);
    assert(owner_of(qname, chain, chain.len() as int) == chain.last().0);
    (
        chase_header(query, chain.len(), source, Answer::A(ips)) + query.subrange(12, end),
        chase_tail(source, authority, additional)->Ok_0,
    )
}

/// What stands in front of the records of the reply.
proof fn lemma_reply_front(
    query: Seq<u8>,
    chain_len: nat,
    source: Seq<u8>,
    ips: Seq<Ipv4Addr>,
    front: Seq<u8>,
    records: Seq<u8>,
    tail: Seq<u8>,
)
    requires
        query.len() >= 12,
        question_end(query) matches Ok(end) && end <= query.len(),
        chain_len <= 0xFFFF,
        ips.len() <= 0xFFFF,
        be16(source, 6) == 0,
        answer_count(chain_len, source, Answer::A(ips)) <= 0xFFFF,
        front == chase_header(query, chain_len, source, Answer::A(ips)) + query.subrange(
            12,
            question_end(query)->Ok_0,
        ),
    ensures
        front.len() == question_end(query)->Ok_0,
        answers_with(query, chain_len + ips.len(), front + records + tail),
{
    assert(front + (records + tail) =~= front + records + tail);
    assert(extra_addresses(source, Answer::A(ips)) == ips);
    lemma_chase_front(query, chain_len, source, Answer::A(ips), records + tail);
}

/// Where addresses are given that the last response does not hold among its answers,
/// for it has none, the reply to a query holds them behind the aliases: each in a
/// record of its own, which the last target owns and which lives as long as is given.
pub proof fn law_given_addresses_are_written_out(
    query: Seq<u8>,
    chain: Seq<(Seq<char>, u32)>,
    source: Seq<u8>,
    ips: Seq<Ipv4Addr>,
    ttl: u32,
    index: nat,
)
    requires
        0 < chain.len() <= 0xFFFF,
        targets_fit(chain),
        be16(source, 6) == 0,
        index < ips.len() <= 0xFFFF,
        chase_defined(query, chain.len(), source, Answer::A(ips)),
    ensures
        chase_bytes(query, chain, source, Answer::A(ips), ttl) matches Ok(reply) ==> {
            &&& answers_with(query, chain.len() + ips.len(), reply)
            &&& holds_address(
                reply,
                question_end(query)->Ok_0,
                chain.len() + index,
                chain.last().0,
                ips[index as int],
                ttl,
            )
        },
{
    let answer = Answer::A(ips);
    if let Ok(reply) = chase_bytes(query, chain, source, answer, ttl) {
        let (front, tail) = lemma_reply_parts(query, chain, source, ips, ttl);
        let qname = first_question(query)->Ok_0.qname;
        let records = chain_records(qname, chain, chain.len()) + address_records(
            chain.last().0,
            ips,
            ttl,
            ips.len(),
        );
        lemma_reply_front(query, chain.len(), source, ips, front, records, tail);
        law_read_name_is_writable(query, 12);
        lemma_addresses_behind_aliases(front, qname, chain, ips, ttl, tail, reply, index);
    }
}

} // verus!
