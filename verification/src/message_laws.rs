//! What holds of the messages that are built.
use crate::addr::{ClientSubnet, IpAddr, Ipv4Addr};
use crate::answers::{analysis, cached_ttl, findings, with_answer, Answer, Findings};
use crate::config::CacheConfig;
use crate::dns::{
    disclosed, family_number, first_question, leading_bits, lemma_questions_advance,
    lemma_questions_window, local_record, low_bits, query_bytes, query_extras, query_header,
    question_end, questions_fit, reply_bytes, reply_to, skip_questions, subnet_record, Question,
    LOCAL_TTL,
};
use crate::lifetime::after_records;
use crate::name_laws::{law_name_reads_back, plain_name};
use crate::wire::{
    be16, be16_bytes, be32, be32_bytes, law_u32_reads_back, name_bytes, name_end, DnsError,
};
use vstd::arithmetic::power2::{lemma2_to64, pow2};
use vstd::prelude::*;

verus! {

/// A query that was built asks for what it was built for, and its one question
/// lies within it.
pub proof fn law_query_reads_back(query_id: u16, q: Question, subnet: Option<ClientSubnet>)
    requires
        plain_name(q.qname),
    ensures
        first_question(query_bytes(query_id, q, subnet)) == Ok::<Question, DnsError>(q),
        be16(query_bytes(query_id, q, subnet), 0) == query_id,
        questions_fit(query_bytes(query_id, q, subnet)),
        question_end(query_bytes(query_id, q, subnet)) == Ok::<int, DnsError>(
            12 + name_bytes(q.qname).len() as int + 4,
        ),
{
    let data = query_bytes(query_id, q, subnet);
    let extras: u16 = if subnet is Some {
        1
    } else {
        0
    };
    let header = query_header(query_id, extras);
    let name = name_bytes(q.qname);
    let behind = be16_bytes(q.qtype) + be16_bytes(q.qclass) + query_extras(subnet);
    assert(header.len() == 12);
    assert(data =~= header + name + behind);
    law_name_reads_back(header, q.qname, behind);
    let end = 12 + name.len() as int;
    assert(data[end] == be16_bytes(q.qtype)[0] && data[end + 1] == be16_bytes(q.qtype)[1]);
    assert(data[end + 2] == be16_bytes(q.qclass)[0] && data[end + 3] == be16_bytes(q.qclass)[1]);
    assert(be16(data, end) == q.qtype);
    assert(be16(data, end + 2) == q.qclass);
    assert(data[0] == be16_bytes(query_id)[0] && data[1] == be16_bytes(query_id)[1]);
    assert(be16(data, 0) == query_id);
    assert(data[4] == be16_bytes(1)[0] && data[5] == be16_bytes(1)[1]);
    assert(be16(data, 4) == 1);
    assert(skip_questions(data, end + 4, 0) == Ok::<int, DnsError>(end + 4));
    assert(skip_questions(data, 12, 1) == Ok::<int, DnsError>(end + 4));
}

/// A subnet with an empty prefix discloses nothing, one whose prefix is as long
/// as its address discloses all of it, and none discloses more bytes than its
/// prefix reaches into.
pub proof fn law_prefix_bounds_disclosure(subnet: ClientSubnet)
    ensures
        subnet.prefix_len == 0 ==> disclosed(subnet).len() == 0,
        subnet.prefix_len == 8 * subnet.ip.bytes().len() ==> disclosed(subnet) == subnet.ip.bytes(),
        8 * disclosed(subnet).len() < subnet.prefix_len + 8,
        forall|i: int|
            0 <= i < disclosed(subnet).len() ==> (#[trigger] disclosed(subnet)[i]) as int
                % low_bits(8 - (subnet.prefix_len - 8 * i)) == 0,
{
    if subnet.prefix_len == 8 * subnet.ip.bytes().len() {
        assert(disclosed(subnet) =~= subnet.ip.bytes());
    }
    assert forall|i: int| 0 <= i < disclosed(subnet).len() implies (
    #[trigger] disclosed(subnet)[i]) as int % low_bits(8 - (subnet.prefix_len - 8 * i)) == 0 by {
        let b = subnet.ip.bytes()[i];
        let step = low_bits(8 - (subnet.prefix_len - 8 * i));
        assert(0 <= b as int % step <= b) by (nonlinear_arith)
            requires
                step > 0,
        ;
        assert((b - b as int % step) % step == 0) by (nonlinear_arith)
            requires
                step > 0,
        {
            assert(b as int == step * (b as int / step) + b as int % step);
            vstd::arithmetic::div_mod::lemma_mod_multiples_basic(b as int / step, step);
            assert((b - b as int % step) == (b as int / step) * step);
        }
    }
}

/// A reply carries the identifier, the questions and the wish for recursion of
/// its query, is marked as a response, and has its code and its counts.
pub proof fn law_reply_answers_its_query(query: Seq<u8>, code: u8, answers: u8, records: Seq<u8>)
    requires
        query.len() >= 12,
        question_end(query) is Ok,
        questions_fit(query),
        be16(query, 4) <= 255,
        code < 16,
    ensures
        reply_to(query, code, answers, records) matches Ok(reply) ==> {
            let end = question_end(query)->Ok_0;
            &&& be16(reply, 0) == be16(query, 0)
            &&& reply[2] == 0x80 + query[2] % 2
            &&& reply[3] == 0x80 + code
            &&& be16(reply, 4) == be16(query, 4)
            &&& be16(reply, 6) == answers
            &&& be16(reply, 8) == 0
            &&& be16(reply, 10) == 0
            &&& question_end(reply) == Ok::<int, DnsError>(end)
            &&& reply.subrange(12, end) == query.subrange(12, end)
            &&& reply.skip(end) == records
        },
        reply_to(query, code, answers, records) is Ok,
{
    let end = question_end(query)->Ok_0;
    let reply = reply_bytes(query, end, code, answers, records);
    lemma_questions_advance(query, 12, be16(query, 4) as nat);
    assert(forall|k: int| 12 <= k < end ==> reply[k] == query[k]);
    assert(reply[0] == query[0] && reply[1] == query[1]);
    assert(be16(reply, 4) == be16(query, 4));
    lemma_questions_window(query, reply, 12, be16(query, 4) as nat);
    assert(reply.subrange(12, end) =~= query.subrange(12, end));
    assert(reply.skip(end) =~= records);
}

/// The one answer behind a message is found.
#[verifier::rlimit(20)]
proof fn lemma_local_record_is_found(front: Seq<u8>, ip: Ipv4Addr)
    ensures
        findings(front + local_record(ip.bytes()), front.len() as int, 1) == Ok::<
            Findings,
            DnsError,
        >(
            Findings {
                at: front.len() as int + 16,
                max_ttl: LOCAL_TTL,
                has_aaaa: false,
                a_records: seq![ip],
                cname_target: None,
            },
        ),
{
    let record = local_record(ip.bytes());
    let data = front + record;
    let at = front.len() as int;
    assert(record.len() == 16);
    assert(data[at] == 0xC0);
    assert(name_end(data, at) == Ok::<int, DnsError>(at + 2));
    assert(data[at + 2] == record[2] && data[at + 3] == record[3]);
    assert(be16(data, at + 2) == 1);
    assert(data[at + 6] == record[6] && data[at + 7] == record[7] && data[at + 8] == record[8]
        && data[at + 9] == record[9]);
    assert(be32(data, at + 6) == LOCAL_TTL);
    assert(data[at + 10] == record[10] && data[at + 11] == record[11]);
    assert(be16(data, at + 10) == 4);
    let none = Seq::<u8>::empty();
    assert(data =~= data.take(at + 12) + be32_bytes(ip.bits) + none);
    law_u32_reads_back(data.take(at + 12), ip.bits, none);
    assert(be32(data, at + 12) == ip.bits);
    let start = findings(data, at, 0)->Ok_0;
    assert(start.a_records.push(ip) =~= seq![ip]);
    assert(findings(data, at, 1) == with_answer(data, start));
}

/// The reply for a local domain, to a query with one question, answers it with
/// the address.
pub proof fn law_local_reply_gives_the_address(query: Seq<u8>, ip: Ipv4Addr, cache: CacheConfig)
    requires
        query.len() >= 12,
        question_end(query) is Ok,
        questions_fit(query),
        be16(query, 4) == 1,
    ensures
        reply_to(query, 0, (be16(query, 4) % 256) as u8, local_record(ip.bytes())) matches Ok(reply)
            ==> analysis(reply, cache) == Ok::<(Answer, u32), DnsError>(
            (Answer::A(seq![ip]), cached_ttl(cache, LOCAL_TTL)),
        ),
{
    let record = local_record(ip.bytes());
    law_reply_answers_its_query(query, 0, 1, record);
    let reply = reply_to(query, 0, 1, record)->Ok_0;
    let end = question_end(query)->Ok_0;
    lemma_questions_advance(query, 12, be16(query, 4) as nat);
    assert(reply.take(end) + reply.skip(end) =~= reply);
    lemma_local_record_is_found(reply.take(end), ip);
}

/// A query wishes for recursion and is marked as nothing else. It has one question,
/// no records but the one for a subnet, and behind its header the name, the type and
/// the class that are asked for. Without a subnet it ends there.
pub proof fn law_query_holds_its_question(query_id: u16, q: Question, subnet: Option<ClientSubnet>)
    ensures
        ({
            let data = query_bytes(query_id, q, subnet);
            let end = 12 + name_bytes(q.qname).len() as int;
            &&& be16(data, 0) == query_id
            &&& data[2] == 1
            &&& data[3] == 0
            &&& be16(data, 4) == 1
            &&& be16(data, 6) == 0
            &&& be16(data, 8) == 0
            &&& be16(data, 10) == if subnet is Some {
                1int
            } else {
                0
            }
            &&& data.len() >= end + 4
            &&& data.subrange(12, end) == name_bytes(q.qname)
            &&& be16(data, end) == q.qtype
            &&& be16(data, end + 2) == q.qclass
            &&& subnet is None ==> data.len() == end + 4
        }),
{
    let data = query_bytes(query_id, q, subnet);
    let extras: u16 = if subnet is Some {
        1
    } else {
        0
    };
    let header = query_header(query_id, extras);
    let name = name_bytes(q.qname);
    let end = 12 + name.len() as int;
    assert(header.len() == 12);
    assert(data =~= header + name + be16_bytes(q.qtype) + be16_bytes(q.qclass) + query_extras(
        subnet,
    ));
    assert(forall|k: int| 0 <= k < 12 ==> data[k] == header[k]);
    assert(header[0] == be16_bytes(query_id)[0] && header[1] == be16_bytes(query_id)[1]);
    assert(header[4] == 0 && header[5] == 1 && header[10] == 0 && header[11] == extras);
    assert(data.subrange(12, end) =~= name);
    assert(data[end] == be16_bytes(q.qtype)[0] && data[end + 1] == be16_bytes(q.qtype)[1]);
    assert(data[end + 2] == be16_bytes(q.qclass)[0] && data[end + 3] == be16_bytes(q.qclass)[1]);
}

/// A subnet stands behind the question in a pseudo-record with no name, which says
/// that 4096 bytes can be taken and holds one option: the number of the address
/// family, the length of the prefix, no scope, and the disclosed part.
pub proof fn law_query_discloses_its_subnet(query_id: u16, q: Question, subnet: ClientSubnet)
    ensures
        ({
            let data = query_bytes(query_id, q, Some(subnet));
            let at = 12 + name_bytes(q.qname).len() as int + 4;
            let part = data.skip(at + 19);
            &&& data.len() >= at + 19
            &&& data[at] == 0
            &&& be16(data, at + 1) == 41
            &&& be16(data, at + 3) == 4096
            &&& be32(data, at + 5) == 0
            &&& be16(data, at + 9) == part.len() + 8
            &&& be16(data, at + 11) == 8
            &&& be16(data, at + 13) == part.len() + 4
            &&& be16(data, at + 15) == match subnet.ip {
                IpAddr::V4(_) => 1int,
                IpAddr::V6(_) => 2int,
            }
            &&& data[at + 17] == subnet.prefix_len
            &&& data[at + 18] == 0
            &&& part == disclosed(subnet)
        }),
{
    let data = query_bytes(query_id, q, Some(subnet));
    let front = query_header(query_id, 1) + name_bytes(q.qname) + be16_bytes(q.qtype)
        + be16_bytes(q.qclass);
    let at = 12 + name_bytes(q.qname).len() as int + 4;
    let record = subnet_record(subnet);
    let part = disclosed(subnet);
    assert(front.len() == at);
    assert(data =~= front + record);
    assert(part.len() <= 16);
    assert(record.len() == 19 + part.len());
    assert(forall|k: int| 0 <= k < record.len() ==> data[at + k] == record[k]);
    assert(record[0] == 0 && record[1] == 0 && record[2] == 41);
    assert(record[3] == 16 && record[4] == 0);
    assert(record[5] == 0 && record[6] == 0 && record[7] == 0 && record[8] == 0);
    assert(record[9] == 0 && record[10] == part.len() + 8);
    assert(record[11] == 0 && record[12] == 8);
    assert(record[13] == 0 && record[14] == part.len() + 4);
    assert(record[15] == 0 && record[16] == family_number(subnet.ip));
    assert(record[17] == subnet.prefix_len && record[18] == 0);
    assert(data.skip(at + 19) =~= part);
}

/// What is disclosed of a subnet is the first bits of its address, as many as its
/// prefix has. The bytes that the prefix covers are those of the address, and in the
/// byte where it ends the bits behind it are cleared.
pub proof fn law_prefix_is_disclosed(subnet: ClientSubnet, i: int)
    requires
        subnet.prefix_len <= 8 * subnet.ip.bytes().len(),
    ensures
        subnet.prefix_len <= 8 * disclosed(subnet).len() < subnet.prefix_len + 8,
        0 <= i && 8 * (i + 1) <= subnet.prefix_len ==> disclosed(subnet)[i]
            == subnet.ip.bytes()[i],
        0 <= i && 8 * i < subnet.prefix_len < 8 * (i + 1) ==> {
            let step = pow2((8 * (i + 1) - subnet.prefix_len) as nat) as int;
            &&& disclosed(subnet)[i] as int % step == 0
            &&& disclosed(subnet)[i] as int / step == subnet.ip.bytes()[i] as int / step
        },
{
    if 0 <= i && 8 * i < subnet.prefix_len < 8 * (i + 1) {
        let b = subnet.ip.bytes()[i] as int;
        let left = 8 * (i + 1) - subnet.prefix_len;
        lemma2_to64();
        assert(low_bits(left) == pow2(left as nat));
        let step = low_bits(left);
        lemma_cut_to_step(b, step);
        assert(0 <= b % step <= b) by (nonlinear_arith)
            requires
                step > 0,
                b >= 0,
        ;
        assert(disclosed(subnet)[i] == leading_bits(
            subnet.ip.bytes()[i],
            subnet.prefix_len - 8 * i,
        ));
        assert(disclosed(subnet)[i] as int == b - b % step);
    }
}

proof fn lemma_cut_to_step(b: int, step: int)
    requires
        step > 0,
    ensures
        (b - b % step) % step == 0,
        (b - b % step) / step == b / step,
{
    vstd::arithmetic::div_mod::lemma_fundamental_div_mod(b, step);
    assert(b - b % step == (b / step) * step) by (nonlinear_arith)
        requires
            b == step * (b / step) + b % step,
    ;
    vstd::arithmetic::div_mod::lemma_mod_multiples_basic(b / step, step);
    vstd::arithmetic::div_mod::lemma_div_multiples_vanish(b / step, step);
    assert((b / step) * step == step * (b / step)) by (nonlinear_arith);
}

proof fn lemma_questions_follow(data: Seq<u8>, places: Seq<int>, from: nat, count: nat)
    requires
        from + count < places.len(),
        forall|i: int|
            from <= i < from + count ==> name_end(data, #[trigger] places[i]) == Ok::<
                int,
                DnsError,
            >(places[i + 1] - 4),
    ensures
        skip_questions(data, places[from as int], count) == Ok::<int, DnsError>(
            places[(from + count) as int],
        ),
    decreases count,
{
    if count > 0 {
        lemma_questions_follow(data, places, from + 1, (count - 1) as nat);
        assert(name_end(data, places[from as int]) is Ok);
    }
}

/// Questions stand one behind the other from the end of the header on, as many as
/// the header says: each is a name with a type and a class, which are four bytes.
pub proof fn law_questions_stand_one_behind_the_other(data: Seq<u8>, places: Seq<int>)
    requires
        places.len() == be16(data, 4) + 1,
        places[0] == 12,
        forall|i: int|
            0 <= i < be16(data, 4) ==> name_end(data, #[trigger] places[i]) == Ok::<int, DnsError>(
                places[i + 1] - 4,
            ),
    ensures
        question_end(data) == Ok::<int, DnsError>(places.last()),
{
    lemma_questions_follow(data, places, 0, be16(data, 4) as nat);
}

/// Records stand one behind the other: each is a name, ten bytes of which the last two
/// are the length of the data, and the data.
pub proof fn law_records_stand_one_behind_the_other(data: Seq<u8>, places: Seq<int>, count: nat)
    requires
        count < places.len(),
        forall|i: int|
            0 <= i < count ==> (name_end(data, #[trigger] places[i]) matches Ok(p) && p + 10
                <= data.len() && places[i + 1] == p + 10 + be16(data, p + 8)),
    ensures
        after_records(data, places[0], count) == Ok::<int, DnsError>(places[count as int]),
    decreases count,
{
    if count > 0 {
        law_records_stand_one_behind_the_other(data, places, (count - 1) as nat);
        assert(name_end(data, places[count - 1]) is Ok);
    }
}

} // verus!
