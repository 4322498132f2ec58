//! The response to a query whose name was an alias: the chain of aliases that
//! was followed, and the records of the last response.
use crate::addr::Ipv4Addr;
use crate::answers::{Answer, Response};
use crate::dns::{
    first_question, gives_bytes, lemma_name_end_after, lemma_read_name_ends, question_end,
    skip_question_section, QueryInfo, DNS_CLASS_IN, DNS_TYPE_A, DNS_TYPE_CNAME,
};
use crate::lifetime::{after_records, lemma_records_error_stays};
use crate::wire::{
    be16, be16_bytes, be32_bytes, encode_domain_to_labels, is_uncompressed, labels_within, name_at,
    name_bytes, name_end, push_range, push_u16, push_u32, read_domain_name, skip_name, u16_be,
    uncompressed, DnsError,
};
use vstd::prelude::*;

verus! {

/// A section of records with the names of their owners written out, and where
/// the section ends. The data of the records stands as it is.
pub open spec fn copied(data: Seq<u8>, at: int, count: nat) -> Result<(Seq<u8>, int), DnsError>
    decreases count,
{
    if count == 0 {
        Ok((Seq::empty(), at))
    } else {
        match copied(data, at, (count - 1) as nat) {
            Err(e) => Err(e),
            Ok((bytes, p)) => match name_at(data, p) {
                Err(e) => Err(e),
                Ok(name) => {
                    let q = name_end(data, p)->Ok_0;
                    if q + 10 > data.len() {
                        Err(DnsError::RecordTruncated)
                    } else {
                        let end = q + 10 + be16(data, q + 8);
                        if end > data.len() {
                            Err(DnsError::RdataTruncated)
                        } else {
                            Ok((bytes + name_bytes(name) + data.subrange(q, end), end))
                        }
                    }
                },
            },
        }
    }
}

/// The records of a section that can be copied: all of them, or those in front
/// of the first one that cannot.
pub open spec fn copied_before_fault(data: Seq<u8>, at: int, count: nat) -> Seq<u8>
    decreases count,
{
    match copied(data, at, count) {
        Ok((bytes, _)) => bytes,
        Err(_) => if count == 0 {
            Seq::empty()
        } else {
            copied_before_fault(data, at, (count - 1) as nat)
        },
    }
}

proof fn lemma_copied_error_stays(data: Seq<u8>, at: int, some: nat, more: nat)
    requires
        some <= more,
        copied(data, at, some) is Err,
    ensures
        copied(data, at, more) == copied(data, at, some),
        copied_before_fault(data, at, more) == copied_before_fault(data, at, some),
    decreases more,
{
    if some < more {
        lemma_copied_error_stays(data, at, some, (more - 1) as nat);
    }
}

/// Appends a section of records with the names of their owners written out, so
/// that no pointer in the place of an owner is broken. Gives where the section
/// ends. Where a record cannot be copied, those in front of it have been.
fn copy_rr_section(buf: &mut Vec<u8>, data: &[u8], off: u128, count: u16) -> (r: Result<
    u128,
    DnsError,
>)
    ensures
        match copied(data@, off as int, count as nat) {
            Ok((bytes, end)) => r matches Ok(e) && e == end && final(buf)@ == old(buf)@ + bytes,
            Err(e) => r matches Err(err) && err == e && final(buf)@ == old(buf)@
                + copied_before_fault(data@, off as int, count as nat),
        },
{
    let total: usize = data.len();
    let ghost start = buf@;
    let mut at: u128 = off;
    let mut i: u16 = 0;
    assert(buf@ =~= start + Seq::<u8>::empty());
    while i < count
        invariant
            i <= count,
            data@.len() == total,
            start == old(buf)@,
            copied(data@, off as int, i as nat) matches Ok((bytes, end)) && at == end && buf@
                == start + bytes,
        decreases count - i,
    {
        proof {
            if copied(data@, off as int, (i + 1) as nat) is Err {
                lemma_copied_error_stays(data@, off as int, (i + 1) as nat, count as nat);
                reveal_with_fuel(copied_before_fault, 2);
            }
        }
        let ghost bytes = copied(data@, off as int, i as nat)->Ok_0.0;
        if at >= total as u128 {
            assert(labels_within(data@, at as int, data@.len() + 1) is Err);
            return Err(DnsError::NamePastEnd);
        }
        let (name, q) = match read_domain_name(data, at as usize) {
            Ok((name, q)) => (name, q),
            Err(e) => {
                return Err(e);
            },
        };
        if total - q < 10 {
            return Err(DnsError::RecordTruncated);
        }
        let rdlength: usize = u16_be(data, q + 8) as usize;
        if total - q - 10 < rdlength {
            return Err(DnsError::RdataTruncated);
        }
        let end: usize = q + 10 + rdlength;
        let owner: Vec<u8> = encode_domain_to_labels(name.as_str());
        push_range(buf, owner.as_slice(), 0, owner.len());
        assert(owner@.subrange(0, owner@.len() as int) =~= owner@);
        push_range(buf, data, q, end);
        assert(buf@ =~= start + (bytes + name_bytes(name@) + data@.subrange(q as int, end as int)));
        at = end as u128;
        i += 1;
    }
    Ok(at)
}

/// Whether the target of an alias, whose data stands between two places, is to
/// be written out: it can be read, its bytes lie in the data and hold a pointer,
/// and the data with the target written out has a length that two bytes can
/// tell.
pub open spec fn needs_expansion(data: Seq<u8>, at: int, end: int) -> bool {
    &&& !uncompressed(data, at)
    &&& name_end(data, at) matches Ok(behind) && behind <= end
    &&& name_at(data, at) matches Ok(target) && name_bytes(target).len() + end - name_end(
        data,
        at,
    )->Ok_0 <= 0xFFFF
}

/// The data of an alias with its target written out, and what stands behind the
/// target as it is.
pub open spec fn expanded(data: Seq<u8>, at: int, end: int) -> Seq<u8> {
    name_bytes(name_at(data, at)->Ok_0) + data.subrange(name_end(data, at)->Ok_0, end)
}

/// A record with the name of its owner written out and, where the record is an
/// alias with a compressed target, the target too; and where the record ends.
/// No pointer of such an alias then leads into the message that it comes from.
/// Other data stands as it is: that of other records, and that of an alias whose
/// target holds no pointer or cannot be read.
pub open spec fn rewritten(data: Seq<u8>, p: int) -> Result<(Seq<u8>, int), DnsError> {
    match copied(data, p, 1) {
        Err(e) => Err(e),
        Ok((bytes, end)) => {
            let q = name_end(data, p)->Ok_0;
            if be16(data, q) == DNS_TYPE_CNAME && needs_expansion(data, q + 10, end) {
                let rdata = expanded(data, q + 10, end);
                Ok(
                    (
                        name_bytes(name_at(data, p)->Ok_0) + data.subrange(q, q + 8) + be16_bytes(
                            rdata.len() as u16,
                        ) + rdata,
                        end,
                    ),
                )
            } else {
                Ok((bytes, end))
            }
        },
    }
}

/// A section of records, each rewritten, and where the section ends.
pub open spec fn rewritten_section(data: Seq<u8>, at: int, count: nat) -> Result<
    (Seq<u8>, int),
    DnsError,
>
    decreases count,
{
    if count == 0 {
        Ok((Seq::empty(), at))
    } else {
        match rewritten_section(data, at, (count - 1) as nat) {
            Err(e) => Err(e),
            Ok((bytes, p)) => match rewritten(data, p) {
                Err(e) => Err(e),
                Ok((record, end)) => Ok((bytes + record, end)),
            },
        }
    }
}

proof fn lemma_rewritten_error_stays(data: Seq<u8>, at: int, some: nat, more: nat)
    requires
        some <= more,
        rewritten_section(data, at, some) is Err,
    ensures
        rewritten_section(data, at, more) == rewritten_section(data, at, some),
    decreases more,
{
    if some < more {
        lemma_rewritten_error_stays(data, at, some, (more - 1) as nat);
    }
}

/// Gives the data of an alias with its target written out, where that is needed.
fn expand_target(data: &[u8], at: usize, end: usize) -> (r: Option<Vec<u8>>)
    requires
        at <= end <= data@.len(),
    ensures
        r is Some <==> needs_expansion(data@, at as int, end as int),
        r matches Some(v) ==> v@ == expanded(data@, at as int, end as int) && v@.len() <= 0xFFFF,
{
    if is_uncompressed(data, at) {
        return None;
    }
    let (target, behind) = match read_domain_name(data, at) {
        Ok((target, behind)) => (target, behind),
        Err(_) => {
            return None;
        },
    };
    if behind > end {
        return None;
    }
    let mut rdata: Vec<u8> = encode_domain_to_labels(target.as_str());
    if rdata.len() > 0xFFFF || end - behind > 0xFFFF - rdata.len() {
        return None;
    }
    push_range(&mut rdata, data, behind, end);
    Some(rdata)
}

/// Gives where the fixed part of the alias at a place stands and its data with
/// the target written out, where there is such an alias and that is needed.
fn expand_alias(data: &[u8], at: u128) -> (r: Option<(usize, Vec<u8>)>)
    ensures
        match name_end(data@, at as int) {
            Ok(q) => {
                let end = q + 10 + be16(data@, q + 8);
                let needed = end <= data@.len() && be16(data@, q) == DNS_TYPE_CNAME
                    && needs_expansion(data@, q + 10, end);
                &&& r is Some <==> needed
                &&& r matches Some((place, v)) ==> place == q && v@ == expanded(
                    data@,
                    q + 10,
                    end,
                ) && v@.len() <= 0xFFFF
            },
            Err(_) => r is None,
        },
{
    let total: usize = data.len();
    proof {
        lemma_name_end_after(data@, at as int);
    }
    let q: u128 = match skip_name(data, at) {
        Ok(q) => q,
        Err(_) => {
            return None;
        },
    };
    if q + 10 > total as u128 {
        return None;
    }
    let q: usize = q as usize;
    let rdlength: usize = u16_be(data, q + 8) as usize;
    if total - q - 10 < rdlength || u16_be(data, q) != DNS_TYPE_CNAME {
        return None;
    }
    match expand_target(data, q + 10, q + 10 + rdlength) {
        Some(rdata) => Some((q, rdata)),
        None => None,
    }
}

/// Appends a record with the name of its owner and the compressed target of an
/// alias written out. Gives where the record ends.
fn rewrite_record(buf: &mut Vec<u8>, data: &[u8], at: u128) -> (r: Result<u128, DnsError>)
    ensures
        match rewritten(data@, at as int) {
            Ok((bytes, end)) => r matches Ok(e) && e == end && final(buf)@ == old(buf)@ + bytes,
            Err(e) => r matches Err(err) && err == e && final(buf)@ == old(buf)@,
        },
{
    let total: usize = data.len();
    let ghost start = buf@;
    proof {
        lemma_read_name_ends(data@, at as int, data@.len() + 1);
        lemma_name_end_after(data@, at as int);
        reveal_with_fuel(copied, 2);
        reveal_with_fuel(copied_before_fault, 2);
        assert(start + Seq::<u8>::empty() =~= start);
    }
    let (q, rdata) = match expand_alias(data, at) {
        Some((q, rdata)) => (q, rdata),
        None => {
            return copy_rr_section(buf, data, at, 1);
        },
    };
    let owner: String = match read_domain_name(data, at as usize) {
        Ok((owner, _)) => owner,
        Err(e) => {
            return Err(e);
        },
    };
    let name: Vec<u8> = encode_domain_to_labels(owner.as_str());
    push_range(buf, name.as_slice(), 0, name.len());
    assert(name@.subrange(0, name@.len() as int) =~= name@);
    assert(q + 10 <= total);
    push_range(buf, data, q, q + 8);
    push_u16(buf, rdata.len() as u16);
    push_range(buf, rdata.as_slice(), 0, rdata.len());
    assert(rdata@.subrange(0, rdata@.len() as int) =~= rdata@);
    assert(buf@ =~= start + rewritten(data@, at as int)->Ok_0.0);
    Ok((q + 10) as u128 + u16_be(data, q + 8) as u128)
}

/// Gives a section of records, each rewritten.
fn rewrite_section(data: &[u8], off: u128, count: u16) -> (r: Result<Vec<u8>, DnsError>)
    ensures
        match rewritten_section(data@, off as int, count as nat) {
            Ok((bytes, _)) => r matches Ok(v) && v@ == bytes,
            Err(e) => r matches Err(err) && err == e,
        },
{
    let mut buf: Vec<u8> = Vec::new();
    let mut at: u128 = off;
    let mut i: u16 = 0;
    while i < count
        invariant
            i <= count,
            rewritten_section(data@, off as int, i as nat) == Ok::<(Seq<u8>, int), DnsError>(
                (buf@, at as int),
            ),
        decreases count - i,
    {
        proof {
            if rewritten_section(data@, off as int, (i + 1) as nat) is Err {
                lemma_rewritten_error_stays(data@, off as int, (i + 1) as nat, count as nat);
            }
        }
        match rewrite_record(&mut buf, data, at) {
            Ok(end) => {
                at = end;
            },
            Err(e) => {
                return Err(e);
            },
        }
        i += 1;
    }
    Ok(buf)
}

/// Finds the end of a number of records.
fn skip_records(data: &[u8], at: u128, count: u16) -> (r: Result<u128, DnsError>)
    requires
        at <= data@.len() + 0x2_0000,
    ensures
        match after_records(data@, at as int, count as nat) {
            Ok(end) => r matches Ok(e) && e == end && (end == at || end <= data@.len() + 0xFFFF),
            Err(e) => r matches Err(err) && err == e,
        },
{
    let total: usize = data.len();
    let mut p: u128 = at;
    let mut i: u16 = 0;
    while i < count
        invariant
            i <= count,
            data@.len() == total,
            p == at || p <= data@.len() + 0xFFFF,
            after_records(data@, at as int, i as nat) == Ok::<int, DnsError>(p as int),
        decreases count - i,
    {
        proof {
            if after_records(data@, at as int, (i + 1) as nat) is Err {
                lemma_records_error_stays(data@, at as int, (i + 1) as nat, count as nat);
            }
            lemma_name_end_after(data@, p as int);
        }
        let q: u128 = match skip_name(data, p) {
            Ok(end) => end,
            Err(e) => {
                return Err(e);
            },
        };
        if q + 10 > total as u128 {
            return Err(DnsError::AnswerTruncated);
        }
        p = q + 10 + u16_be(data, q as usize + 8) as u128;
        i += 1;
    }
    Ok(p)
}

/// The aliases that were followed, each with its lifetime.
pub open spec fn links(chain: Seq<(String, u32)>) -> Seq<(Seq<char>, u32)> {
    Seq::new(chain.len(), |i: int| (chain[i].0@, chain[i].1))
}

/// The name that stands behind the first `index` aliases.
pub open spec fn owner_of(qname: Seq<char>, chain: Seq<(Seq<char>, u32)>, index: int) -> Seq<char> {
    if index <= 0 {
        qname
    } else {
        chain[index - 1].0
    }
}

/// The record of an alias.
pub open spec fn alias_record(owner: Seq<char>, target: Seq<char>, ttl: u32) -> Seq<u8> {
    name_bytes(owner) + be16_bytes(DNS_TYPE_CNAME) + be16_bytes(DNS_CLASS_IN) + be32_bytes(ttl)
        + be16_bytes((name_bytes(target).len() % 0x1_0000) as u16) + name_bytes(target)
}

/// The records of the first `count` aliases of a chain, each owned by the one
/// before it.
pub open spec fn chain_records(
    qname: Seq<char>,
    chain: Seq<(Seq<char>, u32)>,
    count: nat,
) -> Seq<u8>
    decreases count,
{
    if count == 0 {
        Seq::empty()
    } else {
        chain_records(qname, chain, (count - 1) as nat) + alias_record(
            owner_of(qname, chain, count - 1),
            chain[count - 1].0,
            chain[count - 1].1,
        )
    }
}

/// The record of an address.
pub open spec fn address_record(owner: Seq<char>, ip: Ipv4Addr, ttl: u32) -> Seq<u8> {
    name_bytes(owner) + be16_bytes(DNS_TYPE_A) + be16_bytes(DNS_CLASS_IN) + be32_bytes(ttl)
        + be16_bytes(4) + ip.bytes()
}

/// The records of the first `count` addresses.
pub open spec fn address_records(
    owner: Seq<char>,
    ips: Seq<Ipv4Addr>,
    ttl: u32,
    count: nat,
) -> Seq<u8>
    decreases count,
{
    if count == 0 {
        Seq::empty()
    } else {
        address_records(owner, ips, ttl, (count - 1) as nat) + address_record(
            owner,
            ips[count - 1],
            ttl,
        )
    }
}

/// The addresses that are written out, because the last response has no answer
/// section to copy.
pub open spec fn extra_addresses(source: Seq<u8>, answer: Answer) -> Seq<Ipv4Addr> {
    match answer {
        Answer::A(ips) => if be16(source, 6) == 0 {
            ips
        } else {
            Seq::empty()
        },
        _ => Seq::empty(),
    }
}

/// How many answers the response has, as far as it can be counted in two bytes.
pub open spec fn answer_count(chain_len: nat, source: Seq<u8>, answer: Answer) -> int {
    chain_len as int % 0x1_0000 + be16(source, 6) + extra_addresses(source, answer).len() as int
        % 0x1_0000
}

/// Whether the sections of the last response can be found and the answers can
/// be counted: no question of the query or of the last response and no fixed
/// part of a record runs behind the end of its message.
pub open spec fn chase_defined(
    query: Seq<u8>,
    chain_len: nat,
    source: Seq<u8>,
    answer: Answer,
) -> bool {
    query.len() >= 12 ==> (question_end(query) matches Ok(end) ==> {
        &&& end <= query.len()
        &&& source.len() >= 12
        &&& question_end(source) matches Ok(answers) ==> {
            let authority = after_records(source, answers, be16(source, 6) as nat);
            &&& authority != Err::<int, DnsError>(DnsError::AnswerTruncated)
            &&& authority matches Ok(ns) ==> {
                let additional = after_records(source, ns, be16(source, 8) as nat);
                &&& additional != Err::<int, DnsError>(DnsError::AnswerTruncated)
                &&& additional is Ok ==> answers <= source.len() && answer_count(
                    chain_len,
                    source,
                    answer,
                ) <= 0xFFFF
            }
        }
    })
}

/// The answers that follow the aliases: those of the last response, or the
/// addresses where it has no answer section.
pub open spec fn last_answers(
    owner: Seq<char>,
    source: Seq<u8>,
    at: int,
    answer: Answer,
    ttl: u32,
) -> Result<Seq<u8>, DnsError> {
    let extra = extra_addresses(source, answer);
    if extra.len() > 0 {
        Ok(address_records(owner, extra, ttl, extra.len()))
    } else {
        match rewritten_section(source, at, be16(source, 6) as nat) {
            Ok((bytes, _)) => Ok(bytes),
            Err(e) => Err(e),
        }
    }
}

/// The answers of the response.
pub open spec fn chase_answers(
    qname: Seq<char>,
    chain: Seq<(Seq<char>, u32)>,
    source: Seq<u8>,
    at: int,
    answer: Answer,
    ttl: u32,
) -> Result<Seq<u8>, DnsError> {
    match last_answers(
        owner_of(qname, chain, chain.len() as int),
        source,
        at,
        answer,
        ttl,
    ) {
        Ok(records) => Ok(chain_records(qname, chain, chain.len()) + records),
        Err(e) => Err(e),
    }
}

/// The header of the response: the identifier of the query, the flags of a
/// response that offers recursion, the code of the last response, and the
/// counts of the sections.
pub open spec fn chase_header(
    query: Seq<u8>,
    chain_len: nat,
    source: Seq<u8>,
    answer: Answer,
) -> Seq<u8> {
    query.subrange(0, 2) + seq![
        (0x80 + query[2] % 2) as u8,
        (0x80 + source[3] % 16) as u8,
    ] + be16_bytes(be16(query, 4)) + be16_bytes(answer_count(chain_len, source, answer) as u16)
        + be16_bytes(be16(source, 8)) + be16_bytes(be16(source, 10))
}

/// The places at which a response is taken apart: where the questions of the
/// query end, and where the answers, the authority records and the additional
/// records of the last response start.
pub struct Places {
    pub question_end: usize,
    pub answers: usize,
    pub authority: u128,
    pub additional: u128,
}

/// Where the sections lie, or why they cannot be found.
pub open spec fn sections(query: Seq<u8>, source: Seq<u8>) -> Result<
    (int, int, int, int),
    DnsError,
> {
    if query.len() < 12 {
        Err(DnsError::QueryTooShort)
    } else if question_end(query) is Err {
        Err(question_end(query)->Err_0)
    } else if question_end(source) is Err {
        Err(question_end(source)->Err_0)
    } else {
        let answers = question_end(source)->Ok_0;
        match after_records(source, answers, be16(source, 6) as nat) {
            Err(e) => Err(e),
            Ok(authority) => match after_records(source, authority, be16(source, 8) as nat) {
                Err(e) => Err(e),
                Ok(additional) => Ok(
                    (question_end(query)->Ok_0, answers, authority, additional),
                ),
            },
        }
    }
}

/// The authority and the additional records of the last response.
pub open spec fn chase_tail(source: Seq<u8>, authority: int, additional: int) -> Result<
    Seq<u8>,
    DnsError,
> {
    match rewritten_section(source, authority, be16(source, 8) as nat) {
        Err(e) => Err(e),
        Ok((ns, _)) => match rewritten_section(source, additional, be16(source, 10) as nat) {
            Err(e) => Err(e),
            Ok((extra, _)) => Ok(ns + extra),
        },
    }
}

/// The response to a query whose name was an alias, or why there is none.
pub open spec fn chase_bytes(
    query: Seq<u8>,
    chain: Seq<(Seq<char>, u32)>,
    source: Seq<u8>,
    answer: Answer,
    ttl: u32,
) -> Result<Seq<u8>, DnsError> {
    match sections(query, source) {
        Err(e) => Err(e),
        Ok((end, answers, authority, additional)) => match first_question(query) {
            Err(e) => Err(e),
            Ok(question) => match chase_answers(
                question.qname,
                chain,
                source,
                answers,
                answer,
                ttl,
            ) {
                Err(e) => Err(e),
                Ok(records) => match chase_tail(source, authority, additional) {
                    Err(e) => Err(e),
                    Ok(tail) => Ok(
                        chase_header(query, chain.len(), source, answer) + query.subrange(12, end)
                            + records + tail,
                    ),
                },
            },
        },
    }
}

/// Appends the record of an alias.
fn push_alias(buf: &mut Vec<u8>, owner: &str, target: &str, ttl: u32)
    ensures
        final(buf)@ == old(buf)@ + alias_record(owner@, target@, ttl),
{
    let name: Vec<u8> = encode_domain_to_labels(owner);
    let rdata: Vec<u8> = encode_domain_to_labels(target);
    push_range(buf, name.as_slice(), 0, name.len());
    assert(name@.subrange(0, name@.len() as int) =~= name@);
    push_u16(buf, DNS_TYPE_CNAME);
    push_u16(buf, DNS_CLASS_IN);
    push_u32(buf, ttl);
    push_u16(buf, (rdata.len() % 0x1_0000) as u16);
    push_range(buf, rdata.as_slice(), 0, rdata.len());
    assert(rdata@.subrange(0, rdata@.len() as int) =~= rdata@);
    assert(buf@ =~= old(buf)@ + alias_record(owner@, target@, ttl));
}

/// Appends the records of the aliases that were followed.
fn push_chain(buf: &mut Vec<u8>, qname: &str, chain: &Vec<(String, u32)>)
    ensures
        final(buf)@ == old(buf)@ + chain_records(qname@, links(chain@), chain@.len()),
{
    let ghost start = buf@;
    let mut i: usize = 0;
    assert(buf@ =~= start + chain_records(qname@, links(chain@), 0));
    while i < chain.len()
        invariant
            i <= chain@.len(),
            buf@ == start + chain_records(qname@, links(chain@), i as nat),
        decreases chain@.len() - i,
    {
        let owner: &str = if i == 0 {
            qname
        } else {
            chain[i - 1].0.as_str()
        };
        let ghost before = chain_records(qname@, links(chain@), i as nat);
        let ghost record = alias_record(owner@, chain@[i as int].0@, chain@[i as int].1);
        push_alias(buf, owner, chain[i].0.as_str(), chain[i].1);
        i += 1;
        assert(chain_records(qname@, links(chain@), i as nat) == before + record);
        assert(buf@ =~= start + (before + record));
    }
}

/// Appends the record of an address.
fn push_address(buf: &mut Vec<u8>, owner: &str, ip: &Ipv4Addr, ttl: u32)
    ensures
        final(buf)@ == old(buf)@ + address_record(owner@, *ip, ttl),
{
    let name: Vec<u8> = encode_domain_to_labels(owner);
    push_range(buf, name.as_slice(), 0, name.len());
    assert(name@.subrange(0, name@.len() as int) =~= name@);
    push_u16(buf, DNS_TYPE_A);
    push_u16(buf, DNS_CLASS_IN);
    push_u32(buf, ttl);
    push_u16(buf, 4);
    push_u32(buf, ip.bits);
    assert(buf@ =~= old(buf)@ + address_record(owner@, *ip, ttl));
}

/// Appends the records of addresses.
fn push_addresses(buf: &mut Vec<u8>, owner: &str, ips: &Vec<Ipv4Addr>, ttl: u32)
    ensures
        final(buf)@ == old(buf)@ + address_records(owner@, ips@, ttl, ips@.len()),
{
    let ghost start = buf@;
    let mut i: usize = 0;
    assert(buf@ =~= start + address_records(owner@, ips@, ttl, 0));
    while i < ips.len()
        invariant
            i <= ips@.len(),
            buf@ == start + address_records(owner@, ips@, ttl, i as nat),
        decreases ips@.len() - i,
    {
        let ghost before = address_records(owner@, ips@, ttl, i as nat);
        push_address(buf, owner, &ips[i], ttl);
        i += 1;
        assert(buf@ =~= start + (before + address_record(owner@, ips@[i - 1], ttl)));
    }
}

/// Finds the sections of the last response. Gives nothing where they cannot be
/// found or the answers cannot be counted.
fn find_sections(query: &[u8], chain_len: usize, source: &[u8], response: &Response) -> (r: Option<
    Result<Places, DnsError>,
>)
    ensures
        r is Some <==> chase_defined(query@, chain_len as nat, source@, response@),
        r matches Some(Ok(p)) ==> sections(query@, source@) == Ok::<(int, int, int, int), DnsError>(
            (p.question_end as int, p.answers as int, p.authority as int, p.additional as int),
        ) && 12 <= p.question_end <= query@.len() && source@.len() >= 12,
        r matches Some(Err(e)) ==> sections(query@, source@) == Err::<
            (int, int, int, int),
            DnsError,
        >(e),
{
    if query.len() < 12 {
        return Some(Err(DnsError::QueryTooShort));
    }
    let question: u128 = match skip_question_section(query) {
        Ok(end) => end,
        Err(e) => {
            return Some(Err(e));
        },
    };
    if question > query.len() as u128 || source.len() < 12 {
        return None;
    }
    let answers: u128 = match skip_question_section(source) {
        Ok(end) => end,
        Err(e) => {
            return Some(Err(e));
        },
    };
    let authority: u128 = match skip_records(source, answers, u16_be(source, 6)) {
        Ok(end) => end,
        Err(DnsError::AnswerTruncated) => {
            return None;
        },
        Err(e) => {
            return Some(Err(e));
        },
    };
    let additional: u128 = match skip_records(source, authority, u16_be(source, 8)) {
        Ok(end) => end,
        Err(DnsError::AnswerTruncated) => {
            return None;
        },
        Err(e) => {
            return Some(Err(e));
        },
    };
    let extra: usize = match response {
        Response::A(ips) => if u16_be(source, 6) == 0 {
            ips.len()
        } else {
            0
        },
        _ => 0,
    };
    let count: usize = chain_len % 0x1_0000 + u16_be(source, 6) as usize + extra % 0x1_0000;
    if answers > source.len() as u128 || count > 0xFFFF {
        return None;
    }
    Some(
        Ok(
            Places {
                question_end: question as usize,
                answers: answers as usize,
                authority,
                additional,
            },
        ),
    )
}

/// Gives the answers that follow the aliases, and the other records of the last
/// response.
fn last_records(owner: &str, source: &[u8], response: &Response, ttl: u32, places: &Places) -> (r:
    Result<Vec<u8>, DnsError>)
    requires
        source@.len() >= 12,
    ensures
        match last_answers(owner@, source@, places.answers as int, response@, ttl) {
            Err(e) => r matches Err(err) && err == e,
            Ok(records) => match chase_tail(
                source@,
                places.authority as int,
                places.additional as int,
            ) {
                Err(e) => r matches Err(err) && err == e,
                Ok(tail) => r matches Ok(v) && v@ == records + tail,
            },
        },
{
    let mut buf: Vec<u8> = Vec::new();
    let written: bool = match response {
        Response::A(ips) => if u16_be(source, 6) == 0 && ips.len() > 0 {
            push_addresses(&mut buf, owner, ips, ttl);
            true
        } else {
            false
        },
        _ => false,
    };
    assert(written == (extra_addresses(source@, response@).len() > 0));
    if !written {
        buf =
        match rewrite_section(source, places.answers as u128, u16_be(source, 6)) {
            Ok(answers) => answers,
            Err(e) => {
                return Err(e);
            },
        };
    }
    let ghost records = buf@;
    assert(records =~= last_answers(
        owner@,
        source@,
        places.answers as int,
        response@,
        ttl,
    )->Ok_0);
    let ns: Vec<u8> = match rewrite_section(source, places.authority, u16_be(source, 8)) {
        Ok(ns) => ns,
        Err(e) => {
            return Err(e);
        },
    };
    let extra: Vec<u8> = match rewrite_section(source, places.additional, u16_be(source, 10)) {
        Ok(extra) => extra,
        Err(e) => {
            return Err(e);
        },
    };
    push_range(&mut buf, ns.as_slice(), 0, ns.len());
    push_range(&mut buf, extra.as_slice(), 0, extra.len());
    assert(ns@.subrange(0, ns@.len() as int) =~= ns@);
    assert(extra@.subrange(0, extra@.len() as int) =~= extra@);
    assert(buf@ =~= records + (ns@ + extra@));
    Ok(buf)
}

/// Gives the header and the questions of the response.
fn chase_front(
    query: &[u8],
    chain_len: usize,
    source: &[u8],
    response: &Response,
    question_end: usize,
) -> (r: Vec<u8>)
    requires
        12 <= question_end <= query@.len(),
        source@.len() >= 12,
        answer_count(chain_len as nat, source@, response@) <= 0xFFFF,
    ensures
        r@ == chase_header(query@, chain_len as nat, source@, response@) + query@.subrange(
            12,
            question_end as int,
        ),
{
    let ancount: u16 = u16_be(source, 6);
    let extra: usize = match response {
        Response::A(ips) => if ancount == 0 {
            ips.len()
        } else {
            0
        },
        _ => 0,
    };
    let total: u16 = (chain_len % 0x1_0000) as u16 + ancount + (extra % 0x1_0000) as u16;
    let mut buf: Vec<u8> = Vec::new();
    push_range(&mut buf, query, 0, 2);
    buf.push(0x80 + query[2] % 2);
    buf.push(0x80 + source[3] % 16);
    push_u16(&mut buf, u16_be(query, 4));
    push_u16(&mut buf, total);
    push_u16(&mut buf, u16_be(source, 8));
    push_u16(&mut buf, u16_be(source, 10));
    assert(buf@ =~= chase_header(query@, chain_len as nat, source@, response@));
    push_range(&mut buf, query, 12, question_end);
    buf
}

/// Builds the response to a query whose name was an alias: its questions, the
/// aliases that were followed, and the records of the last response. Every
/// alias is written without compression, its owner and its target, unless the
/// target cannot be read. Gives nothing where the sections of the last response
/// cannot be found or the answers cannot be counted.
pub fn chase_response(
    query: &[u8],
    cname_chain: &Vec<(String, u32)>,
    source_response: &[u8],
    response: &Response,
    ttl: u32,
) -> (r: Option<Result<Vec<u8>, DnsError>>)
    ensures
        r is Some <==> chase_defined(query@, cname_chain@.len(), source_response@, response@),
        r matches Some(built) ==> gives_bytes(
            built,
            chase_bytes(query@, links(cname_chain@), source_response@, response@, ttl),
        ),
{
    let places: Places = match find_sections(query, cname_chain.len(), source_response, response) {
        None => {
            return None;
        },
        Some(Err(e)) => {
            return Some(Err(e));
        },
        Some(Ok(places)) => places,
    };
    let qname: String = match QueryInfo::parse(query) {
        Ok(info) => info.qname,
        Err(e) => {
            return Some(Err(e));
        },
    };
    let mut buf: Vec<u8> = chase_front(
        query,
        cname_chain.len(),
        source_response,
        response,
        places.question_end,
    );
    let ghost head = buf@;
    push_chain(&mut buf, qname.as_str(), cname_chain);
    let ghost aliases = chain_records(qname@, links(cname_chain@), cname_chain@.len());
    let count: usize = cname_chain.len();
    let owner: &str = if count == 0 {
        qname.as_str()
    } else {
        cname_chain[count - 1].0.as_str()
    };
    assert(owner@ == owner_of(qname@, links(cname_chain@), count as int));
    match last_records(owner, source_response, response, ttl, &places) {
        Ok(rest) => {
            push_range(&mut buf, rest.as_slice(), 0, rest.len());
            proof {
                let records = last_answers(
                    owner@,
                    source_response@,
                    places.answers as int,
                    response@,
                    ttl,
                )->Ok_0;
                let tail = chase_tail(
                    source_response@,
                    places.authority as int,
                    places.additional as int,
                )->Ok_0;
                assert(rest@.subrange(0, rest@.len() as int) =~= rest@);
                assert(buf@ =~= head + (aliases + records) + tail);
            }
            Some(Ok(buf))
        },
        Err(e) => Some(Err(e)),
    }
}

/// Builds the response to a query whose name was an alias: its questions, the
/// aliases that were followed, and the records of the last response. Every
/// alias is written without compression, its owner and its target, unless the
/// target cannot be read.
pub fn build_cname_chase_response(
    query: &[u8],
    cname_chain: &Vec<(String, u32)>,
    source_response: &[u8],
    response: &Response,
    ttl: u32,
) -> (r: Result<Vec<u8>, DnsError>)
    requires
        chase_defined(query@, cname_chain@.len(), source_response@, response@),
    ensures
        gives_bytes(
            r,
            chase_bytes(query@, links(cname_chain@), source_response@, response@, ttl),
        ),
{
    chase_response(query, cname_chain, source_response, response, ttl).unwrap()
}

} // verus!
