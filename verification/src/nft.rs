//! The nftables sets that resolved addresses are added to.
use crate::addr::{dotted, ipv4_of, parse_ipv4, push_dotted, IpAddr, Ipv4Addr};
use crate::decimal::{digits, push_decimal};
use crate::error::ConfigError;
use crate::text::same_text;
use vstd::arithmetic::power2::{lemma2_to64, lemma_pow2_adds, lemma_pow2_pos, pow2};
use vstd::prelude::*;

verus! {

/// The number of the family of both protocols.
pub const NFPROTO_INET: u8 = 1;

/// The number of the IPv4 family.
pub const NFPROTO_IPV4: u8 = 2;

/// The number of the IPv6 family.
pub const NFPROTO_IPV6: u8 = 10;

/// The number of a family.
pub open spec fn family_value(family: Seq<char>) -> Result<u8, ConfigError> {
    if family == "ip"@ {
        Ok(NFPROTO_IPV4)
    } else if family == "ip6"@ {
        Ok(NFPROTO_IPV6)
    } else if family == "inet"@ {
        Ok(NFPROTO_INET)
    } else {
        Err(ConfigError::UnsupportedFamily)
    }
}

/// Gives the number of a family.
pub fn family_to_nfproto(family: &str) -> (r: Result<u8, ConfigError>)
    ensures
        r == family_value(family@),
{
    if same_text(family, "ip") {
        Ok(NFPROTO_IPV4)
    } else if same_text(family, "ip6") {
        Ok(NFPROTO_IPV6)
    } else if same_text(family, "inet") {
        Ok(NFPROTO_INET)
    } else {
        Err(ConfigError::UnsupportedFamily)
    }
}

/// The addresses from one to another.
#[derive(Clone, Copy, Debug, PartialEq, Eq)]
pub struct NftElement {
    pub start: IpAddr,
    pub end: IpAddr,
}

impl NftElement {
    /// Whether an address lies between the two.
    pub open spec fn covers(self, ip: Ipv4Addr) -> bool {
        &&& self.start matches IpAddr::V4(start) && start.bits <= ip.bits
        &&& self.end matches IpAddr::V4(end) && ip.bits <= end.bits
    }

    /// Tells whether an address lies between the two.
    fn holds(&self, ip: &Ipv4Addr) -> (r: bool)
        ensures
            r == self.covers(*ip),
    {
        match (self.start, self.end) {
            (IpAddr::V4(start), IpAddr::V4(end)) => start.bits <= ip.bits && ip.bits <= end.bits,
            _ => false,
        }
    }
}

/// A set, with the elements that it had at the start.
pub struct NftSet {
    pub family: String,
    pub table: String,
    pub set: String,
    pub existing_elements: Vec<NftElement>,
}

/// Whether one of the elements covers an address.
pub open spec fn covered(elements: Seq<NftElement>, ip: Ipv4Addr) -> bool {
    exists|i: int| 0 <= i < elements.len() && (#[trigger] elements[i]).covers(ip)
}

impl NftSet {
    /// Tells whether an address was in the set at the start.
    pub fn contains(&self, ip: &Ipv4Addr) -> (r: bool)
        ensures
            r == covered(self.existing_elements@, *ip),
    {
        let mut i: usize = 0;
        while i < self.existing_elements.len()
            invariant
                i <= self.existing_elements@.len(),
                forall|k: int| 0 <= k < i ==> !(#[trigger] self.existing_elements@[k]).covers(*ip),
            decreases self.existing_elements@.len() - i,
        {
            if self.existing_elements[i].holds(ip) {
                return true;
            }
            i += 1;
        }
        false
    }
}

/// The last address that agrees with an address in its first `prefix` bits.
pub open spec fn prefix_end(ip: Ipv4Addr, prefix: u8) -> int {
    let block = pow2((32 - prefix) as nat) as int;
    ip.bits as int - ip.bits as int % block + block - 1
}

/// An address, and the last one that agrees with it in its first `prefix` bits.
pub fn ipv4_prefix_to_range(ip: Ipv4Addr, prefix: u8) -> (r: (Ipv4Addr, Ipv4Addr))
    requires
        1 <= prefix <= 32,
    ensures
        r.0 == ip,
        r.1.bits == prefix_end(ip, prefix),
{
    let mut block: u64 = 1;
    let mut i: u8 = prefix;
    proof {
        lemma2_to64();
    }
    while i < 32
        invariant
            1 <= prefix <= i <= 32,
            block == pow2((i - prefix) as nat),
            block <= 0x1_0000_0000,
        decreases 32 - i,
    {
        proof {
            lemma2_to64();
            lemma_pow2_adds((i - prefix) as nat, 1);
            lemma_pow2_adds((i + 1 - prefix) as nat, (32 - (i + 1 - prefix)) as nat);
            lemma_pow2_pos((32 - (i + 1 - prefix)) as nat);
            assert(block * 2 <= 0x1_0000_0000) by (nonlinear_arith)
                requires
                    block * 2 == pow2((i + 1 - prefix) as nat),
                    pow2((i + 1 - prefix) as nat) * pow2((32 - (i + 1 - prefix)) as nat)
                        == 0x1_0000_0000,
                    pow2((32 - (i + 1 - prefix)) as nat) > 0,
            ;
        }
        block = block * 2;
        i += 1;
    }
    let bits: u64 = ip.bits as u64;
    proof {
        lemma_pow2_pos((32 - prefix) as nat);
        lemma_pow2_adds((32 - prefix) as nat, prefix as nat);
        let parts = pow2(prefix as nat);
        assert(bits - bits % block + block <= 0x1_0000_0000) by (nonlinear_arith)
            requires
                block * parts == 0x1_0000_0000,
                block > 0,
                bits < 0x1_0000_0000,
        {
            assert(bits == block * (bits / block) + bits % block);
            assert(bits / block < parts);
            assert(block * (bits / block) + block <= block * parts);
        }
    }
    assert(bits % block <= bits) by (nonlinear_arith)
        requires
            block > 0,
    ;
    let end: u64 = bits - bits % block + (block - 1);
    (ip, Ipv4Addr { bits: end as u32 })
}

/// No address behind the end agrees in the first `prefix` bits, and the end
/// does.
pub proof fn law_prefix_end_is_last(ip: Ipv4Addr, prefix: u8, other: Ipv4Addr)
    requires
        1 <= prefix <= 32,
    ensures
        ({
            let block = pow2((32 - prefix) as nat) as int;
            &&& ip.bits <= prefix_end(ip, prefix)
            &&& prefix_end(ip, prefix) / block == ip.bits as int / block
            &&& other.bits as int / block == ip.bits as int / block ==> other.bits <= prefix_end(
                ip,
                prefix,
            )
        }),
{
    lemma_pow2_pos((32 - prefix) as nat);
    let block = pow2((32 - prefix) as nat) as int;
    let x = ip.bits as int;
    let y = other.bits as int;
    let end = x - x % block + block - 1;
    assert(x <= end && end / block == x / block && (y / block == x / block ==> y <= end))
        by (nonlinear_arith)
        requires
            block > 0,
            x >= 0,
            y >= 0,
            end == x - x % block + block - 1,
    {
        assert(x == block * (x / block) + x % block);
        assert(0 <= x % block < block);
        assert(y == block * (y / block) + y % block);
        assert(0 <= y % block < block);
        assert(end == block * (x / block) + (block - 1));
    }
}

/// An element of a listed set.
pub enum NftSetElem {
    /// One address.
    Simple(String),
    /// The addresses that agree in the first bits.
    Prefixed { addr: String, len: u8 },
    /// The addresses from one to another.
    Ranged { start: String, end: String },
    /// One address that leaves the set after some time.
    WithTimeout(String),
}

/// A listed set.
pub struct NftSetInfo {
    pub family: String,
    pub name: String,
    pub table: String,
    pub set_type: String,
    pub elem: Vec<NftSetElem>,
}

/// An item of a listing.
pub enum NftablesItem {
    ListedSet(NftSetInfo),
    Other,
}

/// One address as an element.
pub open spec fn single(ip: Ipv4Addr) -> NftElement {
    NftElement { start: IpAddr::V4(ip), end: IpAddr::V4(ip) }
}

/// Whether the length of a prefix can be used, where there is one.
pub open spec fn prefix_usable(elem: NftSetElem) -> bool {
    elem matches NftSetElem::Prefixed { addr, len } ==> (ipv4_of(addr@) is Some ==> 1 <= len <= 32)
}

/// The addresses that an element stands for, where its texts are addresses.
pub open spec fn element_of(elem: NftSetElem) -> Option<NftElement> {
    match elem {
        NftSetElem::Simple(s) => match ipv4_of(s@) {
            Some(ip) => Some(single(ip)),
            None => None,
        },
        NftSetElem::Prefixed { addr, len } => match ipv4_of(addr@) {
            Some(ip) => Some(
                NftElement {
                    start: IpAddr::V4(ip),
                    end: IpAddr::V4(Ipv4Addr { bits: prefix_end(ip, len) as u32 }),
                },
            ),
            None => None,
        },
        NftSetElem::Ranged { start, end } => match (ipv4_of(start@), ipv4_of(end@)) {
            (Some(first), Some(last)) => Some(
                NftElement { start: IpAddr::V4(first), end: IpAddr::V4(last) },
            ),
            _ => None,
        },
        NftSetElem::WithTimeout(s) => match ipv4_of(s@) {
            Some(ip) => Some(single(ip)),
            None => None,
        },
    }
}

/// The addresses that the first `count` elements stand for.
pub open spec fn elements_of(elems: Seq<NftSetElem>, count: nat) -> Seq<NftElement>
    decreases count,
{
    if count == 0 {
        Seq::empty()
    } else {
        let before = elements_of(elems, (count - 1) as nat);
        match element_of(elems[count - 1]) {
            Some(e) => before.push(e),
            None => before,
        }
    }
}

/// Whether an item is a set of something else than IPv4 addresses.
pub open spec fn ends_listing(item: NftablesItem) -> bool {
    item matches NftablesItem::ListedSet(info) && info.set_type@ != "ipv4_addr"@
}

/// How many items of a listing count: those before the first set of something
/// else than IPv4 addresses.
pub open spec fn counted(items: Seq<NftablesItem>) -> int
    decreases items.len(),
{
    if items.len() == 0 || ends_listing(items[0]) {
        0
    } else {
        1 + counted(items.skip(1))
    }
}

/// The addresses that the first `count` items of a listing stand for.
pub open spec fn items_elements(items: Seq<NftablesItem>, count: nat) -> Seq<NftElement>
    decreases count,
{
    if count == 0 {
        Seq::empty()
    } else {
        let before = items_elements(items, (count - 1) as nat);
        match items[count - 1] {
            NftablesItem::ListedSet(info) => before + elements_of(info.elem@, info.elem@.len()),
            NftablesItem::Other => before,
        }
    }
}

/// The addresses that a listing stands for.
pub open spec fn listing_elements(items: Seq<NftablesItem>) -> Seq<NftElement> {
    items_elements(items, counted(items) as nat)
}

/// Whether every prefix in a list of elements can be used.
pub open spec fn prefixes_usable(elems: Seq<NftSetElem>) -> bool {
    forall|k: int| 0 <= k < elems.len() ==> prefix_usable(#[trigger] elems[k])
}

/// Whether every prefix in the counted items of a listing can be used.
pub open spec fn listing_defined(items: Seq<NftablesItem>) -> bool {
    forall|i: int|
        0 <= i < counted(items) ==> (#[trigger] items[i] matches NftablesItem::ListedSet(info)
            ==> prefixes_usable(info.elem@))
}

/// Reads an element. Gives nothing where its prefix cannot be used.
fn read_element(elem: &NftSetElem) -> (r: Option<Option<NftElement>>)
    ensures
        r is Some <==> prefix_usable(*elem),
        r matches Some(e) ==> e == element_of(*elem),
{
    match elem {
        NftSetElem::Simple(s) => match parse_ipv4(s.as_str()) {
            Some(ip) => Some(Some(NftElement { start: IpAddr::V4(ip), end: IpAddr::V4(ip) })),
            None => Some(None),
        },
        NftSetElem::Prefixed { addr, len } => match parse_ipv4(addr.as_str()) {
            Some(ip) => {
                if *len < 1 || *len > 32 {
                    return None;
                }
                let (start, end) = ipv4_prefix_to_range(ip, *len);
                assert(end == (Ipv4Addr { bits: prefix_end(ip, *len) as u32 }));
                Some(Some(NftElement { start: IpAddr::V4(start), end: IpAddr::V4(end) }))
            },
            None => Some(None),
        },
        NftSetElem::Ranged { start, end } => match (
            parse_ipv4(start.as_str()),
            parse_ipv4(end.as_str()),
        ) {
            (Some(first), Some(last)) => Some(
                Some(NftElement { start: IpAddr::V4(first), end: IpAddr::V4(last) }),
            ),
            _ => Some(None),
        },
        NftSetElem::WithTimeout(s) => match parse_ipv4(s.as_str()) {
            Some(ip) => Some(Some(NftElement { start: IpAddr::V4(ip), end: IpAddr::V4(ip) })),
            None => Some(None),
        },
    }
}

/// Appends the elements of a set. Tells whether every prefix could be used.
fn push_elements(out: &mut Vec<NftElement>, elems: &Vec<NftSetElem>) -> (r: bool)
    ensures
        r == prefixes_usable(elems@),
        r ==> final(out)@ == old(out)@ + elements_of(elems@, elems@.len()),
{
    let ghost start = out@;
    let mut i: usize = 0;
    assert(out@ =~= start + elements_of(elems@, 0));
    while i < elems.len()
        invariant
            i <= elems@.len(),
            forall|k: int| 0 <= k < i ==> prefix_usable(#[trigger] elems@[k]),
            out@ == start + elements_of(elems@, i as nat),
        decreases elems@.len() - i,
    {
        match read_element(&elems[i]) {
            None => {
                return false;
            },
            Some(None) => {},
            Some(Some(e)) => {
                out.push(e);
            },
        }
        i += 1;
        assert(out@ =~= start + elements_of(elems@, i as nat));
    }
    true
}

/// The items before the first set of something else, one more of which does not
/// end the listing.
pub proof fn lemma_counted(items: Seq<NftablesItem>)
    ensures
        0 <= counted(items) <= items.len(),
        forall|i: int| 0 <= i < counted(items) ==> !ends_listing(#[trigger] items[i]),
        counted(items) < items.len() ==> ends_listing(items[counted(items)]),
    decreases items.len(),
{
    if items.len() > 0 && !ends_listing(items[0]) {
        lemma_counted(items.skip(1));
        assert forall|i: int| 0 <= i < counted(items) implies !ends_listing(
            #[trigger] items[i],
        ) by {
            if i > 0 {
                assert(items.skip(1)[i - 1] == items[i]);
            }
        }
    }
}

/// Reads the elements of a listing, up to the first set of something else than
/// IPv4 addresses. Gives nothing where a prefix cannot be used.
pub fn listed_elements(items: &Vec<NftablesItem>) -> (r: Option<Vec<NftElement>>)
    ensures
        r is Some <==> listing_defined(items@),
        r matches Some(v) ==> v@ == listing_elements(items@),
{
    let mut out: Vec<NftElement> = Vec::new();
    let mut i: usize = 0;
    proof {
        lemma_counted(items@);
    }
    while i < items.len()
        invariant
            i <= counted(items@) <= items@.len(),
            forall|k: int| 0 <= k < counted(items@) ==> !ends_listing(#[trigger] items@[k]),
            counted(items@) < items@.len() ==> ends_listing(items@[counted(items@)]),
            out@ == items_elements(items@, i as nat),
            forall|k: int|
                0 <= k < i ==> (#[trigger] items@[k] matches NftablesItem::ListedSet(info)
                    ==> prefixes_usable(info.elem@)),
        decreases items@.len() - i,
    {
        match &items[i] {
            NftablesItem::Other => {},
            NftablesItem::ListedSet(info) => {
                if !same_text(info.set_type.as_str(), "ipv4_addr") {
                    assert(ends_listing(items@[i as int]));
                    return Some(out);
                }
                assert(i < counted(items@));
                if !push_elements(&mut out, &info.elem) {
                    assert(items@[i as int] matches NftablesItem::ListedSet(s) && !prefixes_usable(
                        s.elem@,
                    ));
                    return None;
                }
            },
        }
        i += 1;
    }
    Some(out)
}

/// Reads the elements of a listing, up to the first set of something else than
/// IPv4 addresses.
pub fn parse_nft_elements(items: &Vec<NftablesItem>) -> (r: Vec<NftElement>)
    requires
        listing_defined(items@),
    ensures
        r@ == listing_elements(items@),
{
    listed_elements(items).unwrap()
}

/// The addresses that no element of a set covers, among the first `count`.
pub open spec fn missing(
    elements: Seq<NftElement>,
    ips: Seq<Ipv4Addr>,
    count: nat,
) -> Seq<Ipv4Addr>
    decreases count,
{
    if count == 0 {
        Seq::empty()
    } else {
        let before = missing(elements, ips, (count - 1) as nat);
        if covered(elements, ips[count - 1]) {
            before
        } else {
            before.push(ips[count - 1])
        }
    }
}

/// What is added are the addresses that no element covers.
pub proof fn law_only_missing_addresses_are_added(
    elements: Seq<NftElement>,
    ips: Seq<Ipv4Addr>,
    count: nat,
    ip: Ipv4Addr,
)
    requires
        count <= ips.len(),
    ensures
        missing(elements, ips, count).contains(ip) <==> ips.take(count as int).contains(ip)
            && !covered(elements, ip),
    decreases count,
{
    if count > 0 {
        let last = (count - 1) as nat;
        law_only_missing_addresses_are_added(elements, ips, last, ip);
        let before = missing(elements, ips, last);
        let upto = ips.take(count as int);
        assert(upto.drop_last() =~= ips.take(last as int));
        assert(upto =~= ips.take(last as int).push(ips[last as int]));
        if ips[last as int] == ip {
            assert(upto[last as int] == ip);
            if !covered(elements, ip) {
                assert(before.push(ip)[before.len() as int] == ip);
            }
        }
        if ips.take(last as int).contains(ip) {
            let i = choose|i: int|
                0 <= i < last && ips.take(last as int)[i] == ip;
            assert(upto[i] == ip);
        }
        if before.contains(ip) {
            let i = choose|i: int| 0 <= i < before.len() && before[i] == ip;
            assert(before.push(ips[last as int])[i] == ip);
        }
    }
}

/// An address with the seconds after which it leaves the set.
pub open spec fn timed(ip: Ipv4Addr, timeout_secs: u64) -> Seq<char> {
    dotted(ip) + " timeout "@ + digits(timeout_secs as nat) + "s"@
}

/// The first `count` addresses with their timeouts, with commas between them.
pub open spec fn timed_list(ips: Seq<Ipv4Addr>, timeout_secs: u64, count: nat) -> Seq<char>
    decreases count,
{
    if count == 0 {
        Seq::empty()
    } else if count == 1 {
        timed(ips[0], timeout_secs)
    } else {
        timed_list(ips, timeout_secs, (count - 1) as nat) + ", "@ + timed(
            ips[count - 1],
            timeout_secs,
        )
    }
}

/// What is added to a set for some addresses: those that it did not have at the
/// start, if there are any.
pub open spec fn addition(
    elements: Seq<NftElement>,
    ips: Seq<Ipv4Addr>,
    timeout_secs: u64,
) -> Option<Seq<char>> {
    let new = missing(elements, ips, ips.len());
    if new.len() == 0 {
        None
    } else {
        Some("{ "@ + timed_list(new, timeout_secs, new.len()) + " }"@)
    }
}

/// Says what is added to a set for some addresses, if there is anything.
pub fn add_to_nft_set(s: &NftSet, ips: &Vec<Ipv4Addr>, timeout_secs: u64) -> (r: Option<String>)
    ensures
        match addition(s.existing_elements@, ips@, timeout_secs) {
            Some(text) => r matches Some(t) && t@ == text,
            None => r is None,
        },
{
    let mut new: Vec<Ipv4Addr> = Vec::new();
    let mut i: usize = 0;
    while i < ips.len()
        invariant
            i <= ips@.len(),
            new@ == missing(s.existing_elements@, ips@, i as nat),
        decreases ips@.len() - i,
    {
        if !s.contains(&ips[i]) {
            new.push(ips[i]);
        }
        i += 1;
    }
    if new.len() == 0 {
        return None;
    }
    let mut out: String = String::new();
    out.append("{ ");
    assert(out@ =~= "{ "@ + timed_list(new@, timeout_secs, 0));
    let mut k: usize = 0;
    while k < new.len()
        invariant
            k <= new@.len(),
            out@ == "{ "@ + timed_list(new@, timeout_secs, k as nat),
        decreases new@.len() - k,
    {
        if k > 0 {
            out.append(", ");
        }
        push_dotted(&mut out, &new[k]);
        out.append(" timeout ");
        push_decimal(&mut out, timeout_secs);
        out.append("s");
        k += 1;
        assert(out@ =~= "{ "@ + timed_list(new@, timeout_secs, k as nat));
    }
    out.append(" }");
    Some(out)
}

} // verus!
