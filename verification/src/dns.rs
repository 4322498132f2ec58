//! Queries, and the replies that need no upstream.
use crate::addr::{ClientSubnet, IpAddr};
use crate::wire::{
    be16, be16_bytes, be32_bytes, bytes_left, encode_domain_to_labels, labels_within, name_at,
    name_bytes, name_end, push_range, push_u16, push_u32, read_domain_name, skip_name, u16_be,
    DnsError,
};
use vstd::prelude::*;

verus! {

/// The record type of an IPv4 address.
pub const DNS_TYPE_A: u16 = 1;

/// The record type of an alias.
pub const DNS_TYPE_CNAME: u16 = 5;

/// The record type of an IPv6 address.
pub const DNS_TYPE_AAAA: u16 = 28;

/// The pseudo-record type that carries EDNS options.
pub const DNS_TYPE_OPT: u16 = 41;

/// The class of internet records.
pub const DNS_CLASS_IN: u16 = 1;

/// The EDNS option that discloses a part of the client's address.
pub const EDNS_CLIENT_SUBNET: u16 = 8;

/// The longest response that an upstream may send.
pub const UDP_PAYLOAD: u16 = 4096;

/// What is asked for.
pub struct QueryInfo {
    pub qname: String,
    pub qtype: u16,
    pub qclass: u16,
}

/// What is asked for, with the name as its characters.
#[verifier::ext_equal]
pub struct Question {
    pub qname: Seq<char>,
    pub qtype: u16,
    pub qclass: u16,
}

impl View for QueryInfo {
    type V = Question;

    open spec fn view(&self) -> Question {
        Question { qname: self.qname@, qtype: self.qtype, qclass: self.qclass }
    }
}

/// The first question of a query.
pub open spec fn first_question(data: Seq<u8>) -> Result<Question, DnsError> {
    if data.len() < 12 {
        Err(DnsError::QueryTooShort)
    } else {
        match name_at(data, 12) {
            Err(e) => Err(e),
            Ok(name) => {
                let end = name_end(data, 12)->Ok_0;
                if end + 4 > data.len() {
                    Err(DnsError::QueryTruncated)
                } else {
                    Ok(
                        Question {
                            qname: name,
                            qtype: be16(data, end),
                            qclass: be16(data, end + 2),
                        },
                    )
                }
            },
        }
    }
}

/// The step between two numbers that agree but for their last `n` bits.
pub open spec fn low_bits(n: int) -> int {
    if n <= 0 {
        1
    } else if n == 1 {
        2
    } else if n == 2 {
        4
    } else if n == 3 {
        8
    } else if n == 4 {
        16
    } else if n == 5 {
        32
    } else if n == 6 {
        64
    } else if n == 7 {
        128
    } else {
        256
    }
}

/// A byte with all but its first `keep` bits cleared.
pub open spec fn leading_bits(b: u8, keep: int) -> u8 {
    (b - b as int % low_bits(8 - keep)) as u8
}

/// How many bytes of its address a subnet discloses.
pub open spec fn disclosed_len(subnet: ClientSubnet) -> int {
    let wanted = (subnet.prefix_len as int + 7) / 8;
    if wanted < subnet.ip.bytes().len() {
        wanted
    } else {
        subnet.ip.bytes().len() as int
    }
}

/// What a subnet discloses of its address: as many bytes as its prefix reaches
/// into, with the bits behind the prefix cleared.
pub open spec fn disclosed(subnet: ClientSubnet) -> Seq<u8> {
    Seq::new(
        disclosed_len(subnet) as nat,
        |i: int| leading_bits(subnet.ip.bytes()[i], subnet.prefix_len - 8 * i),
    )
}

/// The number of an address family in the client subnet option.
pub open spec fn family_number(ip: IpAddr) -> u16 {
    match ip {
        IpAddr::V4(_) => 1,
        IpAddr::V6(_) => 2,
    }
}

/// The pseudo-record that carries a client subnet.
pub open spec fn subnet_record(subnet: ClientSubnet) -> Seq<u8> {
    let part = disclosed(subnet);
    seq![0u8] + be16_bytes(DNS_TYPE_OPT) + be16_bytes(UDP_PAYLOAD) + seq![0u8, 0u8, 0u8, 0u8]
        + be16_bytes((part.len() + 8) as u16) + be16_bytes(EDNS_CLIENT_SUBNET) + be16_bytes(
        (part.len() + 4) as u16,
    ) + be16_bytes(family_number(subnet.ip)) + seq![subnet.prefix_len, 0u8] + part
}

/// The pseudo-records at the end of a query.
pub open spec fn query_extras(subnet: Option<ClientSubnet>) -> Seq<u8> {
    match subnet {
        Some(s) => subnet_record(s),
        None => Seq::empty(),
    }
}

/// The header of a query: recursion is desired, and there is one question.
pub open spec fn query_header(query_id: u16, extras: u16) -> Seq<u8> {
    be16_bytes(query_id) + seq![1u8, 0u8] + be16_bytes(1) + be16_bytes(0) + be16_bytes(0)
        + be16_bytes(extras)
}

/// A query for a question.
pub open spec fn query_bytes(query_id: u16, q: Question, subnet: Option<ClientSubnet>) -> Seq<u8> {
    query_header(
        query_id,
        if subnet is Some {
            1
        } else {
            0
        },
    ) + name_bytes(q.qname) + be16_bytes(q.qtype) + be16_bytes(q.qclass) + query_extras(subnet)
}

impl QueryInfo {
    /// Reads the first question of a query.
    pub fn parse(data: &[u8]) -> (r: Result<QueryInfo, DnsError>)
        ensures
            match first_question(data@) {
                Ok(q) => r matches Ok(info) && info@ == q,
                Err(e) => r matches Err(err) && err == e,
            },
    {
        if data.len() < 12 {
            return Err(DnsError::QueryTooShort);
        }
        match read_domain_name(data, 12) {
            Err(e) => Err(e),
            Ok((qname, end)) => {
                if data.len() - end < 4 {
                    return Err(DnsError::QueryTruncated);
                }
                let info: QueryInfo = QueryInfo {
                    qname,
                    qtype: u16_be(data, end),
                    qclass: u16_be(data, end + 2),
                };
                Ok(info)
            },
        }
    }

    /// The same question of another name.
    pub fn new_qname(&self, qname: &str) -> (r: QueryInfo)
        ensures
            r@ == (Question { qname: qname@, ..self@ }),
    {
        QueryInfo { qname: qname.to_owned(), qtype: self.qtype, qclass: self.qclass }
    }

    /// Builds a query for the question, with the client subnet where there is
    /// one.
    pub fn build(&self, query_id: u16, subnet: Option<ClientSubnet>) -> (r: Vec<u8>)
        ensures
            r@ == query_bytes(query_id, self@, subnet),
    {
        let qname: Vec<u8> = encode_domain_to_labels(self.qname.as_str());
        let mut buf: Vec<u8> = Vec::new();
        push_u16(&mut buf, query_id);
        buf.push(1u8);
        buf.push(0u8);
        push_u16(&mut buf, 1);
        push_u16(&mut buf, 0);
        push_u16(&mut buf, 0);
        let extras: u16 = if subnet.is_some() {
            1
        } else {
            0
        };
        push_u16(&mut buf, extras);
        assert(buf@ =~= query_header(query_id, extras));
        push_range(&mut buf, qname.as_slice(), 0, qname.len());
        assert(qname@.subrange(0, qname@.len() as int) =~= qname@);
        push_u16(&mut buf, self.qtype);
        push_u16(&mut buf, self.qclass);
        if let Some(s) = subnet {
            push_subnet(&mut buf, &s);
        }
        assert(buf@ =~= query_bytes(query_id, self@, subnet));
        buf
    }
}

/// Builds a query for a question.
pub fn build_query(query_id: u16, info: &QueryInfo) -> (r: Vec<u8>)
    ensures
        r@ == query_bytes(query_id, info@, None),
{
    info.build(query_id, None)
}

/// Clears all but the first `keep` bits of a byte.
fn keep_bits(b: u8, keep: u8) -> (r: u8)
    requires
        keep <= 8,
    ensures
        r == leading_bits(b, keep as int),
{
    let step: u16 = match keep {
        0 => 256,
        1 => 128,
        2 => 64,
        3 => 32,
        4 => 16,
        5 => 8,
        6 => 4,
        7 => 2,
        _ => 1,
    };
    (b as u16 - b as u16 % step) as u8
}

/// Appends the pseudo-record that carries a client subnet.
#[verifier::rlimit(30)]
fn push_subnet(buf: &mut Vec<u8>, subnet: &ClientSubnet)
    ensures
        final(buf)@ == old(buf)@ + subnet_record(*subnet),
{
    let address: Vec<u8> = subnet.ip.to_bytes();
    let wanted: usize = (subnet.prefix_len as usize + 7) / 8;
    let len: usize = if wanted < address.len() {
        wanted
    } else {
        address.len()
    };
    let ghost start = buf@;
    let family: u16 = match subnet.ip {
        IpAddr::V4(_) => 1,
        IpAddr::V6(_) => 2,
    };
    buf.push(0u8);
    push_u16(buf, DNS_TYPE_OPT);
    push_u16(buf, UDP_PAYLOAD);
    push_u16(buf, 0);
    push_u16(buf, 0);
    push_u16(buf, len as u16 + 8);
    push_u16(buf, EDNS_CLIENT_SUBNET);
    push_u16(buf, len as u16 + 4);
    push_u16(buf, family);
    buf.push(subnet.prefix_len);
    buf.push(0u8);
    let ghost head = buf@;
    let mut i: usize = 0;
    while i < len
        invariant
            i <= len <= address@.len() <= 16,
            len == disclosed_len(*subnet),
            address@ == subnet.ip.bytes(),
            buf@ == head + disclosed(*subnet).take(i as int),
        decreases len - i,
    {
        let left: usize = subnet.prefix_len as usize - 8 * i;
        let keep: u8 = if left < 8 {
            left as u8
        } else {
            8
        };
        let b: u8 = keep_bits(address[i], keep);
        assert(b == disclosed(*subnet)[i as int]);
        buf.push(b);
        i += 1;
        assert(buf@ =~= head + disclosed(*subnet).take(i as int));
    }
    proof {
        let part = disclosed(*subnet);
        assert(part.take(len as int) =~= part);
        assert(buf@ =~= start + subnet_record(*subnet));
    }
}

/// Where a number of questions end, each of which is a name, a type and a
/// class. The type and the class of the last one can lie behind the end of the
/// message.
pub open spec fn skip_questions(data: Seq<u8>, at: int, count: nat) -> Result<int, DnsError>
    decreases count,
{
    if count == 0 {
        Ok(at)
    } else {
        match name_end(data, at) {
            Ok(end) => skip_questions(data, end + 4, (count - 1) as nat),
            Err(e) => Err(e),
        }
    }
}

/// Where the questions of a message end, behind a header of twelve bytes.
pub open spec fn question_end(data: Seq<u8>) -> Result<int, DnsError> {
    skip_questions(data, 12, be16(data, 4) as nat)
}

/// Whether no question of a message runs behind its end.
pub open spec fn questions_fit(data: Seq<u8>) -> bool {
    data.len() >= 12 ==> (question_end(data) matches Ok(end) ==> end <= data.len())
}

/// Finds the end of the questions of a message.
pub fn skip_question_section(data: &[u8]) -> (r: Result<u128, DnsError>)
    requires
        data@.len() >= 12,
    ensures
        match question_end(data@) {
            Ok(end) => r matches Ok(e) && e == end && 12 <= end <= data@.len() + 5,
            Err(e) => r matches Err(err) && err == e,
        },
{
    let count: u16 = u16_be(data, 4);
    let mut at: u128 = 12;
    let mut left: u16 = count;
    let total: usize = data.len();
    while left > 0
        invariant
            12 <= at <= data@.len() + 5,
            data@.len() == total,
            skip_questions(data@, at as int, left as nat) == question_end(data@),
        decreases left,
    {
        match skip_name(data, at) {
            Ok(end) => {
                proof {
                    lemma_name_end_after(data@, at as int);
                }
                at = end + 4;
            },
            Err(e) => {
                return Err(e);
            },
        }
        left -= 1;
    }
    Ok(at)
}

/// A name ends behind where it starts.
pub proof fn lemma_name_end_after(data: Seq<u8>, at: int)
    ensures
        name_end(data, at) matches Ok(end) ==> at < end <= data.len() + 1,
        name_end(data, at) matches Err(e) ==> e == DnsError::NamePastEnd,
    decreases bytes_left(data, at),
{
    if 0 <= at < data.len() && data[at] != 0 && data[at] < 0xC0 {
        lemma_name_end_after(data, at + 1 + data[at]);
    }
}

/// A name that can be read has an end.
pub proof fn lemma_read_name_ends(data: Seq<u8>, at: int, steps: nat)
    ensures
        labels_within(data, at, steps) is Ok ==> (name_end(data, at) matches Ok(end) && end
            <= data.len()),
    decreases steps,
{
    if steps > 0 && 0 <= at < data.len() && data[at] != 0 && data[at] < 0xC0 {
        lemma_read_name_ends(data, at + 1 + data[at], (steps - 1) as nat);
    }
}

/// Questions end behind where they start.
pub proof fn lemma_questions_advance(a: Seq<u8>, at: int, count: nat)
    ensures
        skip_questions(a, at, count) matches Ok(end) ==> at <= end,
    decreases count,
{
    if count > 0 {
        lemma_name_end_after(a, at);
        if let Ok(end) = name_end(a, at) {
            lemma_questions_advance(a, end + 4, (count - 1) as nat);
        }
    }
}

/// The end of a name depends on its own bytes alone.
pub proof fn lemma_name_end_window(a: Seq<u8>, b: Seq<u8>, at: int)
    requires
        name_end(a, at) is Ok,
        a.len() <= b.len() || name_end(a, at)->Ok_0 <= b.len(),
        forall|k: int| at <= k < name_end(a, at)->Ok_0 && k < a.len() ==> #[trigger] a[k] == b[k],
    ensures
        name_end(b, at) == name_end(a, at),
    decreases bytes_left(a, at),
{
    lemma_name_end_after(a, at);
    if 0 <= at < a.len() {
        assert(a[at] == b[at]);
        if a[at] != 0 && a[at] < 0xC0 {
            lemma_name_end_after(a, at + 1 + a[at]);
            lemma_name_end_window(a, b, at + 1 + a[at]);
        }
    }
}

/// The end of some questions depends on their own bytes alone.
pub proof fn lemma_questions_window(a: Seq<u8>, b: Seq<u8>, at: int, count: nat)
    requires
        skip_questions(a, at, count) is Ok,
        a.len() <= b.len() || skip_questions(a, at, count)->Ok_0 <= b.len(),
        forall|k: int|
            at <= k < skip_questions(a, at, count)->Ok_0 && k < a.len() ==> #[trigger] a[k] == b[k],
    ensures
        skip_questions(b, at, count) == skip_questions(a, at, count),
        at <= skip_questions(a, at, count)->Ok_0,
    decreases count,
{
    if count > 0 {
        let end = name_end(a, at)->Ok_0;
        lemma_name_end_after(a, at);
        lemma_questions_advance(a, end + 4, (count - 1) as nat);
        lemma_name_end_window(a, b, at);
        lemma_questions_window(a, b, end + 4, (count - 1) as nat);
    }
}

/// Tells whether no question of a message runs behind its end.
pub fn check_questions_fit(data: &[u8]) -> (r: bool)
    ensures
        r == questions_fit(data@),
{
    if data.len() < 12 {
        return true;
    }
    match skip_question_section(data) {
        Ok(end) => end <= data.len() as u128,
        Err(_) => true,
    }
}

/// A reply to a query: its identifier, the flags of a response that offers
/// recursion, the counts of its questions and answers, its questions, and the
/// answers. Of the count of questions one byte is kept.
pub open spec fn reply_bytes(
    query: Seq<u8>,
    end: int,
    code: u8,
    answers: u8,
    records: Seq<u8>,
) -> Seq<u8> {
    query.subrange(0, 2) + seq![
        (0x80 + query[2] % 2) as u8,
        (0x80 + code) as u8,
        0u8,
        (be16(query, 4) % 256) as u8,
        0u8,
        answers,
        0u8,
        0u8,
        0u8,
        0u8,
    ] + query.subrange(12, end) + records
}

/// What a reply builder gives: the reply, or why the query cannot be answered.
pub open spec fn reply_to(query: Seq<u8>, code: u8, answers: u8, records: Seq<u8>) -> Result<
    Seq<u8>,
    DnsError,
> {
    if query.len() < 12 {
        Err(DnsError::QueryTooShort)
    } else {
        match question_end(query) {
            Ok(end) => Ok(reply_bytes(query, end, code, answers, records)),
            Err(e) => Err(e),
        }
    }
}

/// Whether a builder gave what it should.
pub open spec fn gives_bytes(
    r: Result<Vec<u8>, DnsError>,
    wanted: Result<Seq<u8>, DnsError>,
) -> bool {
    match wanted {
        Ok(bytes) => r matches Ok(v) && v@ == bytes,
        Err(e) => r matches Err(err) && err == e,
    }
}

/// The response code for a name that does not exist.
pub const RCODE_NXDOMAIN: u8 = 3;

/// Builds the header and the questions of a reply.
fn build_reply(query: &[u8], code: u8, answers: u8) -> (r: Result<Vec<u8>, DnsError>)
    requires
        questions_fit(query@),
        code < 16,
    ensures
        gives_bytes(r, reply_to(query@, code, answers, Seq::empty())),
{
    if query.len() < 12 {
        return Err(DnsError::QueryTooShort);
    }
    let end: usize = match skip_question_section(query) {
        Ok(end) => end as usize,
        Err(e) => {
            return Err(e);
        },
    };
    let mut resp: Vec<u8> = Vec::new();
    push_range(&mut resp, query, 0, 2);
    resp.push(0x80 + query[2] % 2);
    resp.push(0x80 + code);
    resp.push(0u8);
    resp.push((u16_be(query, 4) % 256) as u8);
    resp.push(0u8);
    resp.push(answers);
    push_u16(&mut resp, 0);
    push_u16(&mut resp, 0);
    push_range(&mut resp, query, 12, end);
    assert(resp@ =~= reply_bytes(query@, end as int, code, answers, Seq::empty()));
    Ok(resp)
}

/// Builds the reply that a name does not exist.
pub fn build_nxdomain_response(query: &[u8]) -> (r: Result<Vec<u8>, DnsError>)
    requires
        questions_fit(query@),
    ensures
        gives_bytes(r, reply_to(query@, RCODE_NXDOMAIN, 0, Seq::empty())),
{
    build_reply(query, RCODE_NXDOMAIN, 0)
}

/// Builds a reply without answers.
pub fn build_empty_response(query: &[u8]) -> (r: Result<Vec<u8>, DnsError>)
    requires
        questions_fit(query@),
    ensures
        gives_bytes(r, reply_to(query@, 0, 0, Seq::empty())),
{
    build_reply(query, 0, 0)
}

/// The seconds for which the address of a local domain may be kept.
pub const LOCAL_TTL: u32 = 60;

/// The record of an address whose owner is the first question, by a pointer to
/// it.
pub open spec fn local_record(ip: Seq<u8>) -> Seq<u8> {
    seq![0xC0u8, 0x0Cu8] + be16_bytes(DNS_TYPE_A) + be16_bytes(DNS_CLASS_IN) + be32_bytes(LOCAL_TTL)
        + be16_bytes(4) + ip
}

/// Builds a reply with one address. The count of answers is that of the
/// questions.
pub fn build_a_response(query: &[u8], ip: &[u8; 4]) -> (r: Result<Vec<u8>, DnsError>)
    requires
        questions_fit(query@),
    ensures
        gives_bytes(
            r,
            reply_to(query@, 0, (be16(query@, 4) % 256) as u8, local_record(ip@)),
        ),
{
    if query.len() < 12 {
        return Err(DnsError::QueryTooShort);
    }
    let answers: u8 = (u16_be(query, 4) % 256) as u8;
    match build_reply(query, 0, answers) {
        Ok(reply) => {
            let mut resp: Vec<u8> = reply;
            let ghost head = resp@;
            resp.push(0xC0u8);
            resp.push(0x0Cu8);
            push_u16(&mut resp, DNS_TYPE_A);
            push_u16(&mut resp, DNS_CLASS_IN);
            push_u32(&mut resp, LOCAL_TTL);
            push_u16(&mut resp, 4);
            resp.push(ip[0]);
            resp.push(ip[1]);
            resp.push(ip[2]);
            resp.push(ip[3]);
            assert(resp@ =~= head + local_record(ip@));
            assert(resp@ =~= reply_bytes(
                query@,
                question_end(query@)->Ok_0,
                0,
                answers,
                local_record(ip@),
            ));
            Ok(resp)
        },
        Err(e) => Err(e),
    }
}

} // verus!
