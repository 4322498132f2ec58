//! What an upstream's response answers, and for how long.
use crate::addr::Ipv4Addr;
use crate::config::CacheConfig;
use crate::dns::{
    lemma_name_end_after, question_end, skip_question_section, DNS_TYPE_A, DNS_TYPE_AAAA,
    DNS_TYPE_CNAME,
};
use crate::lifetime::after_records;
use crate::wire::{
    be16, be32, name_at, name_end, read_domain_name, skip_name, u16_be, u32_be, DnsError,
};
use vstd::prelude::*;

verus! {

/// What a response answers.
pub enum Response {
    /// These IPv4 addresses, or none.
    A(Vec<Ipv4Addr>),
    /// At least one IPv6 address.
    Aaaa,
    /// An alias, and no address.
    Cname(String),
}

/// What a response answers, with its lists as sequences.
#[verifier::ext_equal]
pub enum Answer {
    A(Seq<Ipv4Addr>),
    Aaaa,
    Cname(Seq<char>),
}

impl View for Response {
    type V = Answer;

    open spec fn view(&self) -> Answer {
        match self {
            Response::A(ips) => Answer::A(ips@),
            Response::Aaaa => Answer::Aaaa,
            Response::Cname(target) => Answer::Cname(target@),
        }
    }
}

/// What the answers that have been read hold.
#[verifier::ext_equal]
pub struct Findings {
    /// Where the next answer starts.
    pub at: int,
    /// The longest lifetime.
    pub max_ttl: u32,
    /// Whether there is an IPv6 address.
    pub has_aaaa: bool,
    /// The IPv4 addresses, in their order.
    pub a_records: Seq<Ipv4Addr>,
    /// The target of the first alias.
    pub cname_target: Option<Seq<char>>,
}

/// What one more answer adds.
pub open spec fn with_answer(data: Seq<u8>, f: Findings) -> Result<Findings, DnsError> {
    match name_end(data, f.at) {
        Err(e) => Err(e),
        Ok(p) => if p + 10 > data.len() {
            Err(DnsError::AnswerTruncated)
        } else {
            let rtype = be16(data, p);
            let ttl = be32(data, p + 4);
            let rdlength = be16(data, p + 8) as int;
            let rdata = p + 10;
            let alias = rtype == DNS_TYPE_CNAME && f.cname_target is None;
            if alias && name_at(data, rdata) is Err {
                Err(name_at(data, rdata)->Err_0)
            } else {
                Ok(
                    Findings {
                        at: rdata + rdlength,
                        max_ttl: if f.max_ttl < ttl {
                            ttl
                        } else {
                            f.max_ttl
                        },
                        has_aaaa: f.has_aaaa || rtype == DNS_TYPE_AAAA,
                        a_records: if rtype == DNS_TYPE_A && rdlength == 4 && rdata + 4
                            <= data.len() {
                            f.a_records.push(Ipv4Addr { bits: be32(data, rdata) })
                        } else {
                            f.a_records
                        },
                        cname_target: if alias {
                            Some(name_at(data, rdata)->Ok_0)
                        } else {
                            f.cname_target
                        },
                    },
                )
            }
        },
    }
}

/// What the first `count` answers from a place on hold.
pub open spec fn findings(data: Seq<u8>, at: int, count: nat) -> Result<Findings, DnsError>
    decreases count,
{
    if count == 0 {
        Ok(
            Findings {
                at,
                max_ttl: 0,
                has_aaaa: false,
                a_records: Seq::empty(),
                cname_target: None,
            },
        )
    } else {
        match findings(data, at, (count - 1) as nat) {
            Ok(f) => with_answer(data, f),
            Err(e) => Err(e),
        }
    }
}

/// What the answers come down to: an IPv6 address counts before the IPv4
/// addresses, and these count before an alias.
pub open spec fn answer_of(f: Findings) -> Answer {
    if f.has_aaaa {
        Answer::Aaaa
    } else if f.a_records.len() > 0 {
        Answer::A(f.a_records)
    } else if f.cname_target is Some {
        Answer::Cname(f.cname_target->0)
    } else {
        Answer::A(Seq::empty())
    }
}

/// The longest lifetime with the cap and the floor applied to it, in 32 bits.
pub open spec fn cached_ttl(cache: CacheConfig, max_ttl: u32) -> u32 {
    (cache.normalized(max_ttl as u64) % 0x1_0000_0000) as u32
}

/// What a response answers and for how long, or why it cannot be used.
pub open spec fn analysis(data: Seq<u8>, cache: CacheConfig) -> Result<(Answer, u32), DnsError> {
    if data.len() < 12 {
        Err(DnsError::ResponseTooShort)
    } else {
        match question_end(data) {
            Err(e) => Err(e),
            Ok(start) => match findings(data, start, be16(data, 6) as nat) {
                Err(e) => Err(e),
                Ok(f) => Ok((answer_of(f), cached_ttl(cache, f.max_ttl))),
            },
        }
    }
}

/// Behind an answer that cannot be read nothing more is found.
pub proof fn lemma_findings_error_stays(data: Seq<u8>, at: int, some: nat, more: nat)
    requires
        some <= more,
        findings(data, at, some) is Err,
    ensures
        findings(data, at, more) == findings(data, at, some),
    decreases more,
{
    if some < more {
        lemma_findings_error_stays(data, at, some, (more - 1) as nat);
    }
}

/// What is found in some answers ends where they end.
pub proof fn lemma_findings_end(data: Seq<u8>, at: int, count: nat)
    ensures
        findings(data, at, count) matches Ok(f) ==> after_records(data, at, count) == Ok::<
            int,
            DnsError,
        >(f.at),
    decreases count,
{
    if count > 0 {
        lemma_findings_end(data, at, (count - 1) as nat);
    }
}

/// Reads what a response answers, and for how long.
pub fn analyze_response(data: &[u8], cache: &CacheConfig) -> (r: Result<(Response, u32), DnsError>)
    ensures
        match analysis(data@, *cache) {
            Ok((answer, ttl)) => r matches Ok((resp, t)) && resp@ == answer && t == ttl,
            Err(e) => r matches Err(err) && err == e,
        },
{
    if data.len() < 12 {
        return Err(DnsError::ResponseTooShort);
    }
    let start: u128 = match skip_question_section(data) {
        Ok(end) => end,
        Err(e) => {
            return Err(e);
        },
    };
    let count: u16 = u16_be(data, 6);
    let total: usize = data.len();
    let mut offset: u128 = start;
    let mut max_ttl: u32 = 0;
    let mut has_aaaa: bool = false;
    let mut a_records: Vec<Ipv4Addr> = Vec::new();
    let mut cname_target: Option<String> = None;
    let mut i: u16 = 0;
    while i < count
        invariant
            i <= count,
            data@.len() == total,
            count == be16(data@, 6),
            data@.len() >= 12,
            question_end(data@) == Ok::<int, DnsError>(start as int),
            findings(data@, start as int, i as nat) matches Ok(f) && f == (Findings {
                at: offset as int,
                max_ttl,
                has_aaaa,
                a_records: a_records@,
                cname_target: match cname_target {
                    Some(t) => Some(t@),
                    None => None,
                },
            }),
        decreases count - i,
    {
        proof {
            if findings(data@, start as int, (i + 1) as nat) is Err {
                lemma_findings_error_stays(data@, start as int, (i + 1) as nat, count as nat);
            }
            lemma_name_end_after(data@, offset as int);
        }
        let p: u128 = match skip_name(data, offset) {
            Ok(end) => end,
            Err(e) => {
                return Err(e);
            },
        };
        if p + 10 > total as u128 {
            return Err(DnsError::AnswerTruncated);
        }
        let p: usize = p as usize;
        let rtype: u16 = u16_be(data, p);
        let ttl: u32 = u32_be(data, p + 4);
        let rdlength: u16 = u16_be(data, p + 8);
        let rdata: usize = p + 10;
        if max_ttl < ttl {
            max_ttl = ttl;
        }
        if rtype == DNS_TYPE_A {
            if rdlength == 4 && total - rdata >= 4 {
                a_records.push(Ipv4Addr { bits: u32_be(data, rdata) });
            }
        } else if rtype == DNS_TYPE_AAAA {
            has_aaaa = true;
        } else if rtype == DNS_TYPE_CNAME {
            if cname_target.is_none() {
                match read_domain_name(data, rdata) {
                    Ok((target, _)) => {
                        cname_target = Some(target);
                    },
                    Err(e) => {
                        return Err(e);
                    },
                }
            }
        }
        offset = rdata as u128 + rdlength as u128;
        i += 1;
    }
    let normalized: u64 = cache.normalize_ttl(max_ttl as u64);
    let ttl: u32 = (normalized % 0x1_0000_0000) as u32;
    let resp: Response = if has_aaaa {
        Response::Aaaa
    } else if a_records.len() > 0 {
        Response::A(a_records)
    } else {
        match cname_target {
            Some(target) => Response::Cname(target),
            None => Response::A(Vec::new()),
        }
    };
    Ok((resp, ttl))
}

} // verus!
