//! What holds of what is added to nftables sets, and of what is in them.
use crate::addr::{dotted, ipv4_of, IpAddr, Ipv4Addr};
use crate::decimal::digits;
use crate::nft::{
    addition, counted, covered, element_of, elements_of, ends_listing, family_value,
    items_elements, law_prefix_end_is_last, lemma_counted, listing_elements, missing,
    prefix_end, timed, timed_list, NftElement, NftSetElem, NftablesItem,
};
use crate::rules::ConfigModel;
use crate::server::{update_for, AnsweredModel};
use vstd::arithmetic::power2::{lemma_pow2_pos, pow2};
use vstd::prelude::*;

verus! {

/// Whether an address lies between the two ends of one of some elements.
pub open spec fn lies_in(elements: Seq<NftElement>, ip: Ipv4Addr) -> bool {
    exists|i: int|
        {
            &&& 0 <= i < elements.len()
            &&& (#[trigger] elements[i]).start matches IpAddr::V4(first) && first.bits <= ip.bits
            &&& elements[i].end matches IpAddr::V4(last) && ip.bits <= last.bits
        }
}

proof fn lemma_covered_lies_in(elements: Seq<NftElement>, ip: Ipv4Addr)
    ensures
        covered(elements, ip) == lies_in(elements, ip),
{
    if covered(elements, ip) {
        let i = choose|i: int| 0 <= i < elements.len() && (#[trigger] elements[i]).covers(ip);
        assert(elements[i].covers(ip));
    }
    if lies_in(elements, ip) {
        let i = choose|i: int|
            {
                &&& 0 <= i < elements.len()
                &&& (#[trigger] elements[i]).start matches IpAddr::V4(first) && first.bits
                    <= ip.bits
                &&& elements[i].end matches IpAddr::V4(last) && ip.bits <= last.bits
            };
        assert(elements[i].covers(ip));
    }
}

/// Whether some addresses are just those among others that lie in none of some
/// elements, in their order: `places` are their indices.
pub open spec fn picks_missing(
    elements: Seq<NftElement>,
    ips: Seq<Ipv4Addr>,
    count: nat,
    added: Seq<Ipv4Addr>,
    places: Seq<int>,
) -> bool {
    &&& places.len() == added.len()
    &&& forall|i: int, j: int|
        0 <= i < j < places.len() ==> (#[trigger] places[i]) < (#[trigger] places[j])
    &&& forall|i: int|
        0 <= i < places.len() ==> 0 <= (#[trigger] places[i]) < count && ips[places[i]] == added[i]
            && !lies_in(elements, added[i])
    &&& forall|k: int|
        0 <= k < count && !lies_in(elements, #[trigger] ips[k]) ==> places.contains(k)
}

proof fn lemma_missing_is_picked(elements: Seq<NftElement>, ips: Seq<Ipv4Addr>, count: nat)
    requires
        count <= ips.len(),
    ensures
        exists|places: Seq<int>| #[trigger]
            picks_missing(elements, ips, count, missing(elements, ips, count), places),
    decreases count,
{
    let added = missing(elements, ips, count);
    if count == 0 {
        assert(picks_missing(elements, ips, 0, added, Seq::empty()));
    } else {
        let last = (count - 1) as nat;
        lemma_missing_is_picked(elements, ips, last);
        let before = missing(elements, ips, last);
        let places = choose|places: Seq<int>| #[trigger]
            picks_missing(elements, ips, last, before, places);
        lemma_covered_lies_in(elements, ips[last as int]);
        if covered(elements, ips[last as int]) {
            assert(picks_missing(elements, ips, count, added, places));
        } else {
            let more = places.push(last as int);
            assert forall|k: int| 0 <= k < count && !lies_in(
                elements,
                #[trigger] ips[k],
            ) implies more.contains(k) by {
                if k < last {
                    let i = choose|i: int| 0 <= i < places.len() && places[i] == k;
                    assert(more[i] == k);
                } else {
                    assert(more[places.len() as int] == k);
                }
            }
            assert(picks_missing(elements, ips, count, added, more));
        }
    }
}

/// Addresses as they are added: each with the word for its timeout, the seconds
/// and their unit, with commas between them.
pub open spec fn added_text(ips: Seq<Ipv4Addr>, seconds: nat) -> Seq<char>
    decreases ips.len(),
{
    if ips.len() == 0 {
        Seq::empty()
    } else {
        let first = dotted(ips[0]) + " timeout "@ + digits(seconds) + "s"@;
        if ips.len() == 1 {
            first
        } else {
            first + (", "@ + added_text(ips.skip(1), seconds))
        }
    }
}

proof fn lemma_added_text_push(ips: Seq<Ipv4Addr>, ip: Ipv4Addr, seconds: u64)
    requires
        ips.len() > 0,
    ensures
        added_text(ips.push(ip), seconds as nat) == added_text(ips, seconds as nat) + ", "@ + timed(
            ip,
            seconds,
        ),
    decreases ips.len(),
{
    let all = ips.push(ip);
    let first = timed(ips[0], seconds);
    assert(all[0] == ips[0]);
    if ips.len() == 1 {
        assert(all.skip(1) =~= seq![ip]);
        assert(added_text(seq![ip], seconds as nat) == timed(ip, seconds));
        assert(first + (", "@ + timed(ip, seconds)) =~= first + ", "@ + timed(ip, seconds));
    } else {
        assert(all.skip(1) =~= ips.skip(1).push(ip));
        lemma_added_text_push(ips.skip(1), ip, seconds);
        let rest = added_text(ips.skip(1), seconds as nat);
        assert(first + (", "@ + (rest + ", "@ + timed(ip, seconds))) =~= first + (", "@ + rest)
            + ", "@ + timed(ip, seconds));
    }
}

proof fn lemma_added_text(ips: Seq<Ipv4Addr>, seconds: u64, count: nat)
    requires
        count <= ips.len(),
    ensures
        timed_list(ips, seconds, count) == added_text(ips.take(count as int), seconds as nat),
    decreases count,
{
    if count == 1 {
        assert(ips.take(1) =~= seq![ips[0]]);
    } else if count > 1 {
        let last = (count - 1) as nat;
        lemma_added_text(ips, seconds, last);
        assert(ips.take(count as int) =~= ips.take(last as int).push(ips[last as int]));
        lemma_added_text_push(ips.take(last as int), ips[last as int], seconds);
    }
}

/// Where a query under a rule with an nftables set is answered with IPv4
/// addresses, those of them that lie in no element of the set are added to that
/// set, all of them and in their order, each for twice the time for which the
/// response is kept. Nothing is added just where all of them lie in elements of
/// the set, where there is no set, or where there are no IPv4 addresses.
pub proof fn law_missing_addresses_are_added(config: ConfigModel, answered: AnsweredModel)
    ensures
        ({
            let rules = config.rules.forward;
            let has_set = answered.rule matches Some(i) && i < rules.len()
                && rules[i as int].nft_set is Some;
            let set = rules[answered.rule->0 as int].nft_set->0;
            let ips = answered.answer->A_0;
            let wanted = has_set && answered.answer is A && exists|k: int|
                0 <= k < ips.len() && !lies_in(set.existing, #[trigger] ips[k]);
            &&& !wanted ==> update_for(config, answered) is None
            &&& wanted ==> (update_for(config, answered) matches Some((to, text)) && to == set
                && exists|added: Seq<Ipv4Addr>, places: Seq<int>|
                {
                    &&& #[trigger] picks_missing(set.existing, ips, ips.len(), added, places)
                    &&& text == "{ "@ + added_text(added, (2 * answered.ttl) as nat) + " }"@
                })
        }),
{
    let rules = config.rules.forward;
    if answered.rule is Some && answered.rule->0 < rules.len()
        && rules[answered.rule->0 as int].nft_set is Some && answered.answer is A {
        let set = rules[answered.rule->0 as int].nft_set->0;
        let ips = answered.answer->A_0;
        let added = missing(set.existing, ips, ips.len());
        lemma_missing_is_picked(set.existing, ips, ips.len());
        let places = choose|places: Seq<int>| #[trigger]
            picks_missing(set.existing, ips, ips.len(), added, places);
        assert(picks_missing(set.existing, ips, ips.len(), added, places));
        if exists|k: int| 0 <= k < ips.len() && !lies_in(set.existing, #[trigger] ips[k]) {
            let k = choose|k: int| 0 <= k < ips.len() && !lies_in(set.existing, #[trigger] ips[k]);
            assert(places.contains(k));
            assert(added.len() > 0);
            let seconds = (answered.ttl * 2) as u64;
            lemma_added_text(added, seconds, added.len());
            assert(added.take(added.len() as int) =~= added);
            assert(addition(set.existing, ips, seconds) == Some(
                "{ "@ + added_text(added, (2 * answered.ttl) as nat) + " }"@,
            ));
        } else if added.len() > 0 {
            assert(!lies_in(set.existing, ips[places[0]]));
        }
    }
}

/// Whether a listed element stands for an address: it is written as that address,
/// with a prefix as one that agrees with it in the first bits and is no larger, or
/// as a range around it.
pub open spec fn stands_for(elem: NftSetElem, ip: Ipv4Addr) -> bool {
    match elem {
        NftSetElem::Simple(s) => ipv4_of(s@) == Some(ip),
        NftSetElem::WithTimeout(s) => ipv4_of(s@) == Some(ip),
        NftSetElem::Prefixed { addr, len } => ipv4_of(addr@) matches Some(base) && base.bits
            <= ip.bits && ip.bits as int / pow2((32 - len) as nat) as int == base.bits as int
            / pow2((32 - len) as nat) as int,
        NftSetElem::Ranged { start, end } => ipv4_of(start@) matches Some(first) && first.bits
            <= ip.bits && (ipv4_of(end@) matches Some(last) && ip.bits <= last.bits),
    }
}

proof fn lemma_element_stands_for(elem: NftSetElem, ip: Ipv4Addr)
    requires
        elem matches NftSetElem::Prefixed { addr, len } ==> 1 <= len <= 32,
    ensures
        stands_for(elem, ip) <==> (element_of(elem) matches Some(e) && e.covers(ip)),
{
    if let NftSetElem::Prefixed { addr, len } = elem {
        if let Some(base) = ipv4_of(addr@) {
            law_prefix_end_is_last(base, len, ip);
            lemma_pow2_pos((32 - len) as nat);
            lemma_prefix_end_fits(base, len);
            let block = pow2((32 - len) as nat) as int;
            let x = base.bits as int;
            let y = ip.bits as int;
            let end = prefix_end(base, len);
            if x <= y <= end {
                assert(y / block == x / block) by (nonlinear_arith)
                    requires
                        block > 0,
                        0 <= x <= y <= end,
                        end / block == x / block,
                {
                    assert(x == block * (x / block) + x % block && 0 <= x % block < block);
                    assert(y == block * (y / block) + y % block && 0 <= y % block < block);
                    assert(end == block * (end / block) + end % block && 0 <= end % block < block);
                    if y / block > x / block {
                        assert(y / block >= end / block + 1);
                        assert(block * (y / block) >= block * (end / block) + block);
                    }
                    if y / block < x / block {
                        assert(y / block + 1 <= x / block);
                        assert(block * (y / block) + block <= block * (x / block));
                    }
                }
            }
        }
    }
}

proof fn lemma_prefix_end_fits(ip: Ipv4Addr, prefix: u8)
    requires
        1 <= prefix <= 32,
    ensures
        0 <= prefix_end(ip, prefix) <= u32::MAX,
{
    vstd::arithmetic::power2::lemma2_to64();
    vstd::arithmetic::power2::lemma_pow2_adds((32 - prefix) as nat, prefix as nat);
    lemma_pow2_pos((32 - prefix) as nat);
    lemma_pow2_pos(prefix as nat);
    let block = pow2((32 - prefix) as nat) as int;
    let parts = pow2(prefix as nat) as int;
    let x = ip.bits as int;
    assert(0 <= x - x % block + block - 1 < 0x1_0000_0000) by (nonlinear_arith)
        requires
            block * parts == 0x1_0000_0000,
            block > 0,
            0 <= x < 0x1_0000_0000,
    {
        assert(x == block * (x / block) + x % block);
        assert(0 <= x % block < block);
        assert(x / block < parts);
        assert(block * (x / block) + block <= block * parts);
    }
}

proof fn lemma_elements_stand_for(elems: Seq<NftSetElem>, count: nat, ip: Ipv4Addr)
    requires
        count <= elems.len(),
        forall|k: int|
            0 <= k < elems.len() ==> (#[trigger] elems[k] matches NftSetElem::Prefixed { addr, len }
                ==> 1 <= len <= 32),
    ensures
        covered(elements_of(elems, count), ip) <==> exists|k: int|
            0 <= k < count && stands_for(#[trigger] elems[k], ip),
    decreases count,
{
    if count > 0 {
        let last = (count - 1) as nat;
        lemma_elements_stand_for(elems, last, ip);
        lemma_element_stands_for(elems[last as int], ip);
        let before = elements_of(elems, last);
        let after = elements_of(elems, count);
        if covered(before, ip) {
            let i = choose|i: int| 0 <= i < before.len() && (#[trigger] before[i]).covers(ip);
            assert(after[i].covers(ip));
            let k = choose|k: int| 0 <= k < last && stands_for(#[trigger] elems[k], ip);
            assert(stands_for(elems[k], ip));
        }
        if stands_for(elems[last as int], ip) {
            assert(after[before.len() as int].covers(ip));
        }
        if covered(after, ip) && !covered(before, ip) {
            let i = choose|i: int| 0 <= i < after.len() && (#[trigger] after[i]).covers(ip);
            if i < before.len() {
                assert(before[i].covers(ip));
            }
            assert(stands_for(elems[last as int], ip));
        }
    }
}

/// Whether an item is a listed set with an element that stands for an address.
pub open spec fn item_stands_for(item: NftablesItem, ip: Ipv4Addr) -> bool {
    item matches NftablesItem::ListedSet(info) && exists|k: int|
        0 <= k < info.elem@.len() && stands_for(#[trigger] info.elem@[k], ip)
}

/// Whether the prefixes in an item are of lengths that an address can have.
pub open spec fn prefixes_in_range(item: NftablesItem) -> bool {
    item matches NftablesItem::ListedSet(info) ==> forall|k: int|
        0 <= k < info.elem@.len() ==> (#[trigger] info.elem@[k] matches NftSetElem::Prefixed {
            addr,
            len,
        } ==> 1 <= len <= 32)
}

proof fn lemma_items_stand_for(items: Seq<NftablesItem>, count: nat, ip: Ipv4Addr)
    requires
        count <= items.len(),
        forall|i: int| 0 <= i < items.len() ==> prefixes_in_range(#[trigger] items[i]),
    ensures
        covered(items_elements(items, count), ip) <==> exists|i: int|
            0 <= i < count && item_stands_for(#[trigger] items[i], ip),
    decreases count,
{
    if count > 0 {
        let last = (count - 1) as nat;
        lemma_items_stand_for(items, last, ip);
        let before = items_elements(items, last);
        let after = items_elements(items, count);
        assert(prefixes_in_range(items[last as int]));
        if let NftablesItem::ListedSet(info) = items[last as int] {
            let more = elements_of(info.elem@, info.elem@.len());
            lemma_elements_stand_for(info.elem@, info.elem@.len(), ip);
            assert(after == before + more);
            if covered(more, ip) {
                let i = choose|i: int| 0 <= i < more.len() && (#[trigger] more[i]).covers(ip);
                assert(after[before.len() + i].covers(ip));
            }
            if covered(before, ip) {
                let i = choose|i: int| 0 <= i < before.len() && (#[trigger] before[i]).covers(ip);
                assert(after[i].covers(ip));
            }
            if covered(after, ip) {
                let i = choose|i: int| 0 <= i < after.len() && (#[trigger] after[i]).covers(ip);
                if i < before.len() {
                    assert(before[i].covers(ip));
                } else {
                    assert(more[i - before.len()].covers(ip));
                }
            }
            assert(covered(after, ip) == (covered(before, ip) || covered(more, ip)));
            assert(covered(more, ip) == item_stands_for(items[last as int], ip));
        }
        if exists|i: int| 0 <= i < last && item_stands_for(#[trigger] items[i], ip) {
            let i = choose|i: int| 0 <= i < last && item_stands_for(#[trigger] items[i], ip);
            assert(item_stands_for(items[i], ip));
        }
    }
}

/// A listing holds an address just where an element of a set in it stands for the
/// address and no set of something else than IPv4 addresses is listed before it.
pub proof fn law_listing_holds_what_it_lists(items: Seq<NftablesItem>, ip: Ipv4Addr)
    requires
        forall|i: int| 0 <= i < items.len() ==> prefixes_in_range(#[trigger] items[i]),
    ensures
        lies_in(listing_elements(items), ip) <==> exists|i: int|
            {
                &&& 0 <= i < items.len()
                &&& item_stands_for(#[trigger] items[i], ip)
                &&& forall|j: int|
                    0 <= j <= i ==> (#[trigger] items[j] matches NftablesItem::ListedSet(info)
                        ==> info.set_type@ == "ipv4_addr"@)
            },
{
    lemma_counted(items);
    let n = counted(items);
    lemma_items_stand_for(items, n as nat, ip);
    lemma_covered_lies_in(listing_elements(items), ip);
    if exists|i: int| 0 <= i < n && item_stands_for(#[trigger] items[i], ip) {
        let i = choose|i: int| 0 <= i < n && item_stands_for(#[trigger] items[i], ip);
        assert forall|j: int| 0 <= j <= i implies (#[trigger] items[j] matches
            NftablesItem::ListedSet(info) ==> info.set_type@ == "ipv4_addr"@) by {
            assert(!ends_listing(items[j]));
        }
        assert(item_stands_for(items[i], ip));
    }
    if exists|i: int|
        {
            &&& 0 <= i < items.len()
            &&& item_stands_for(#[trigger] items[i], ip)
            &&& forall|j: int|
                0 <= j <= i ==> (#[trigger] items[j] matches NftablesItem::ListedSet(info)
                    ==> info.set_type@ == "ipv4_addr"@)
        } {
        let i = choose|i: int|
            {
                &&& 0 <= i < items.len()
                &&& item_stands_for(#[trigger] items[i], ip)
                &&& forall|j: int|
                    0 <= j <= i ==> (#[trigger] items[j] matches NftablesItem::ListedSet(info)
                        ==> info.set_type@ == "ipv4_addr"@)
            };
        if i >= n {
            assert(ends_listing(items[n]));
        }
        assert(item_stands_for(items[i], ip));
    }
}

/// The families are those of IPv4, of IPv6 and of both, and no text but their
/// names has a number.
pub proof fn law_families_have_their_numbers(family: Seq<char>)
    ensures
        family == "ip"@ ==> (family_value(family) matches Ok(n) && n == 2),
        family == "ip6"@ ==> (family_value(family) matches Ok(n) && n == 10),
        family == "inet"@ ==> (family_value(family) matches Ok(n) && n == 1),
        family_value(family) is Ok ==> family == "ip"@ || family == "ip6"@ || family == "inet"@,
{
    reveal_strlit("ip");
    reveal_strlit("ip6");
    reveal_strlit("inet");
    assert("ip"@.len() != "ip6"@.len() && "ip"@.len() != "inet"@.len() && "ip6"@.len()
        != "inet"@.len());
}

} // verus!
