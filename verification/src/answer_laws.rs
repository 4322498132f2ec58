//! What holds of what a response is taken to answer.
use crate::addr::Ipv4Addr;
use crate::answers::{
    analysis, answer_of, cached_ttl, findings, lemma_findings_end, Answer, Findings,
};
use crate::config::CacheConfig;
use crate::dns::question_end;
use crate::lifetime::{after_records, fixed_part};
use crate::wire::{be16, be32, name_at, DnsError};
use vstd::prelude::*;

verus! {

/// The number of the type of the record with an index.
pub open spec fn type_of(data: Seq<u8>, at: int, k: int) -> int {
    be16(data, fixed_part(data, at, k as nat)->Ok_0) as int
}

/// The lifetime of the record with an index.
pub open spec fn ttl_of(data: Seq<u8>, at: int, k: int) -> u32 {
    be32(data, fixed_part(data, at, k as nat)->Ok_0 + 4)
}

/// Where the data of the record with an index stands.
pub open spec fn data_of(data: Seq<u8>, at: int, k: int) -> int {
    fixed_part(data, at, k as nat)->Ok_0 + 10
}

/// Whether the record with an index holds an IPv4 address: it has that type and
/// four bytes of data that lie in the message.
pub open spec fn holds_ipv4(data: Seq<u8>, at: int, k: int) -> bool {
    type_of(data, at, k) == 1 && be16(data, data_of(data, at, k) - 2) == 4 && data_of(data, at, k)
        + 4 <= data.len()
}

/// Whether some addresses are those of the first `count` records, in their order:
/// `places` are the indices of just the records that hold an IPv4 address.
pub open spec fn addresses_of(
    data: Seq<u8>,
    at: int,
    count: nat,
    ips: Seq<Ipv4Addr>,
    places: Seq<int>,
) -> bool {
    &&& places.len() == ips.len()
    &&& forall|i: int, j: int|
        0 <= i < j < places.len() ==> (#[trigger] places[i]) < (#[trigger] places[j])
    &&& forall|i: int|
        0 <= i < places.len() ==> 0 <= (#[trigger] places[i]) < count && holds_ipv4(
            data,
            at,
            places[i],
        ) && ips[i].bits == be32(data, data_of(data, at, places[i]))
    &&& forall|k: int| 0 <= k < count && #[trigger] holds_ipv4(data, at, k) ==> places.contains(k)
}

/// Whether some addresses are those of the first `count` records, in their order.
pub open spec fn are_the_addresses(data: Seq<u8>, at: int, count: nat, ips: Seq<Ipv4Addr>) -> bool {
    exists|places: Seq<int>| #[trigger] addresses_of(data, at, count, ips, places)
}

/// Whether a name is the target of the first alias among the first `count`
/// records.
pub open spec fn is_first_target(data: Seq<u8>, at: int, count: nat, target: Seq<char>) -> bool {
    exists|k: int|
        {
            &&& 0 <= k < count
            &&& #[trigger] type_of(data, at, k) == 5
            &&& forall|j: int| 0 <= j < k ==> #[trigger] type_of(data, at, j) != 5
            &&& name_at(data, data_of(data, at, k)) == Ok::<Seq<char>, DnsError>(target)
        }
}

/// What is found in the first records holds of them: an IPv6 address just where
/// one of them has that type, the longest of their lifetimes, the addresses of
/// those with one, and the target of the first alias among them.
spec fn found_truly(data: Seq<u8>, at: int, count: nat, f: Findings) -> bool {
    &&& f.has_aaaa <==> exists|k: int| 0 <= k < count && #[trigger] type_of(data, at, k) == 28
    &&& forall|k: int| 0 <= k < count ==> #[trigger] ttl_of(data, at, k) <= f.max_ttl
    &&& count == 0 ==> f.max_ttl == 0
    &&& count > 0 ==> exists|k: int| 0 <= k < count && #[trigger] ttl_of(data, at, k) == f.max_ttl
    &&& are_the_addresses(data, at, count, f.a_records)
    &&& f.cname_target is None <==> forall|k: int|
        0 <= k < count ==> #[trigger] type_of(data, at, k) != 5
    &&& f.cname_target matches Some(target) ==> is_first_target(data, at, count, target)
}

proof fn lemma_addresses_grow(
    data: Seq<u8>,
    at: int,
    last: nat,
    before: Seq<Ipv4Addr>,
    after: Seq<Ipv4Addr>,
)
    requires
        exists|places: Seq<int>| #[trigger] addresses_of(data, at, last, before, places),
        holds_ipv4(data, at, last as int) ==> after == before.push(
            Ipv4Addr { bits: be32(data, data_of(data, at, last as int)) },
        ),
        !holds_ipv4(data, at, last as int) ==> after == before,
    ensures
        exists|places: Seq<int>| #[trigger] addresses_of(data, at, last + 1, after, places),
{
    let places = choose|places: Seq<int>| #[trigger] addresses_of(data, at, last, before, places);
    if holds_ipv4(data, at, last as int) {
        let more = places.push(last as int);
        assert forall|k: int| 0 <= k < last + 1 && #[trigger] holds_ipv4(
            data,
            at,
            k,
        ) implies more.contains(k) by {
            if k < last {
                let i = choose|i: int| 0 <= i < places.len() && places[i] == k;
                assert(more[i] == k);
            } else {
                assert(more[places.len() as int] == k);
            }
        }
        assert(addresses_of(data, at, last + 1, after, more));
    } else {
        assert(addresses_of(data, at, last + 1, after, places));
    }
}

proof fn lemma_found_truly(data: Seq<u8>, at: int, count: nat)
    ensures
        findings(data, at, count) matches Ok(f) ==> found_truly(data, at, count, f),
    decreases count,
{
    if findings(data, at, count) is Ok {
        let f = findings(data, at, count)->Ok_0;
        if count == 0 {
            assert(addresses_of(data, at, 0, f.a_records, Seq::empty()));
        } else {
            let last = (count - 1) as nat;
            lemma_found_truly(data, at, last);
            lemma_findings_end(data, at, last);
            let g = findings(data, at, last)->Ok_0;
            let q = fixed_part(data, at, last)->Ok_0;
            assert(type_of(data, at, last as int) == be16(data, q));
            assert(ttl_of(data, at, last as int) == be32(data, q + 4));
            lemma_addresses_grow(data, at, last, g.a_records, f.a_records);
            if g.has_aaaa {
                let k = choose|k: int| 0 <= k < last && #[trigger] type_of(data, at, k) == 28;
                assert(type_of(data, at, k) == 28);
            }
            if last > 0 {
                let k = choose|k: int|
                    0 <= k < last && #[trigger] ttl_of(data, at, k) == g.max_ttl;
                assert(ttl_of(data, at, k) == g.max_ttl);
            }
            if let Some(target) = g.cname_target {
                let k = choose|k: int|
                    {
                        &&& 0 <= k < last
                        &&& #[trigger] type_of(data, at, k) == 5
                        &&& forall|j: int| 0 <= j < k ==> #[trigger] type_of(data, at, j) != 5
                        &&& name_at(data, data_of(data, at, k)) == Ok::<Seq<char>, DnsError>(target)
                    };
                assert(type_of(data, at, k) == 5);
            }
        }
    }
}

/// Whether one of the first records has a type.
pub open spec fn has_type(data: Seq<u8>, at: int, count: nat, t: int) -> bool {
    exists|k: int| 0 <= k < count && #[trigger] type_of(data, at, k) == t
}

/// Whether one of the first records holds an IPv4 address.
pub open spec fn has_ipv4(data: Seq<u8>, at: int, count: nat) -> bool {
    exists|k: int| 0 <= k < count && #[trigger] holds_ipv4(data, at, k)
}

/// Whether an answer says truly what the first records hold.
spec fn says_truly(data: Seq<u8>, at: int, count: nat, answer: Answer) -> bool {
    let ipv6 = has_type(data, at, count, 28);
    let ipv4 = has_ipv4(data, at, count);
    let alias = has_type(data, at, count, 5);
    &&& answer is Aaaa <==> ipv6
    &&& !ipv6 && ipv4 ==> answer is A && are_the_addresses(data, at, count, answer->A_0)
    &&& !ipv6 && !ipv4 && alias ==> answer is Cname && is_first_target(
        data,
        at,
        count,
        answer->Cname_0,
    )
    &&& !ipv6 && !ipv4 && !alias ==> answer is A && answer->A_0.len() == 0
}

proof fn lemma_answered_truly(data: Seq<u8>, at: int, count: nat, f: Findings)
    requires
        found_truly(data, at, count, f),
    ensures
        says_truly(data, at, count, answer_of(f)),
{
    assert(f.has_aaaa == has_type(data, at, count, 28));
    assert((f.cname_target is Some) == has_type(data, at, count, 5));
    assert(has_ipv4(data, at, count) == (f.a_records.len() > 0)) by {
        let places = choose|places: Seq<int>| #[trigger]
            addresses_of(data, at, count, f.a_records, places);
        if has_ipv4(data, at, count) {
            let k = choose|k: int| 0 <= k < count && #[trigger] holds_ipv4(data, at, k);
            assert(places.contains(k));
        } else if f.a_records.len() > 0 {
            assert(holds_ipv4(data, at, places[0]));
        }
    }
}

/// What a response answers: that there is an IPv6 address just where one of its
/// answers has that type; else the addresses of just the answers that hold an
/// IPv4 address, in their order, where one does; else the target of the first
/// alias among its answers, where there is one; and else nothing. It is kept for
/// the longest lifetime of its answers, between the floor and the cap.
pub proof fn law_analysis_says_what_is_answered(data: Seq<u8>, cache: CacheConfig)
    ensures
        analysis(data, cache) matches Ok((answer, ttl)) ==> {
            let at = question_end(data)->Ok_0;
            let count = be16(data, 6) as nat;
            let ipv6 = has_type(data, at, count, 28);
            let ipv4 = has_ipv4(data, at, count);
            let alias = has_type(data, at, count, 5);
            &&& data.len() >= 12
            &&& question_end(data) is Ok
            &&& after_records(data, at, count) is Ok
            &&& answer is Aaaa <==> ipv6
            &&& !ipv6 && ipv4 ==> answer is A && are_the_addresses(data, at, count, answer->A_0)
            &&& !ipv6 && !ipv4 && alias ==> answer is Cname && is_first_target(
                data,
                at,
                count,
                answer->Cname_0,
            )
            &&& !ipv6 && !ipv4 && !alias ==> answer is A && answer->A_0.len() == 0
            &&& exists|longest: u32|
                {
                    &&& forall|k: int| 0 <= k < count ==> #[trigger] ttl_of(data, at, k) <= longest
                    &&& count == 0 ==> longest == 0
                    &&& count > 0 ==> exists|k: int|
                        0 <= k < count && #[trigger] ttl_of(data, at, k) == longest
                    &&& ttl == #[trigger] cached_ttl(cache, longest)
                }
        },
{
    if analysis(data, cache) is Ok {
        let at = question_end(data)->Ok_0;
        let count = be16(data, 6) as nat;
        let f = findings(data, at, count)->Ok_0;
        lemma_found_truly(data, at, count);
        lemma_findings_end(data, at, count);
        lemma_answered_truly(data, at, count, f);
        assert(analysis(data, cache)->Ok_0 == (answer_of(f), cached_ttl(cache, f.max_ttl)));
    }
}

/// The time for which a response is kept: its longest lifetime, but the cap where
/// that is longer than the cap, and the floor where it is no longer than the cap
/// and shorter than the floor.
pub proof fn law_kept_time_has_a_floor_and_a_cap(cache: CacheConfig, longest: u32)
    requires
        cache.min_ttl <= u32::MAX,
    ensures
        longest > cache.max_ttl ==> cached_ttl(cache, longest) == cache.max_ttl,
        longest <= cache.max_ttl && longest < cache.min_ttl ==> cached_ttl(cache, longest)
            == cache.min_ttl,
        cache.min_ttl <= longest <= cache.max_ttl ==> cached_ttl(cache, longest) == longest,
{
}

/// A response whose answers can be found, and the target of the first alias among
/// them read, can be analysed. One that is too short or whose questions cannot be
/// found cannot.
pub proof fn law_readable_responses_are_analysed(data: Seq<u8>, cache: CacheConfig)
    requires
        data.len() >= 12,
        question_end(data) is Ok,
        after_records(data, question_end(data)->Ok_0, be16(data, 6) as nat) is Ok,
        forall|k: int|
            0 <= k < be16(data, 6) && #[trigger] type_of(data, question_end(data)->Ok_0, k) == 5
                ==> name_at(data, data_of(data, question_end(data)->Ok_0, k)) is Ok,
    ensures
        analysis(data, cache) is Ok,
{
    lemma_readable_answers(data, question_end(data)->Ok_0, be16(data, 6) as nat);
}

proof fn lemma_readable_answers(data: Seq<u8>, at: int, count: nat)
    requires
        after_records(data, at, count) is Ok,
        forall|k: int|
            0 <= k < count && #[trigger] type_of(data, at, k) == 5 ==> name_at(
                data,
                data_of(data, at, k),
            ) is Ok,
    ensures
        findings(data, at, count) is Ok,
    decreases count,
{
    if count > 0 {
        let last = (count - 1) as nat;
        lemma_readable_answers(data, at, last);
        lemma_findings_end(data, at, last);
        assert(type_of(data, at, last as int) == be16(data, fixed_part(data, at, last)->Ok_0));
    }
}

} // verus!
