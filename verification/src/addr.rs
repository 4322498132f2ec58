//! Internet addresses.
use crate::decimal::{digits, is_digit, law_digits_read_back, parse_octet, push_decimal};
use crate::text::{join, law_join_of_split, law_split_of_join, split_text, texts};
use crate::wire::{be32_bytes, law_u32_of_bytes};
use vstd::prelude::*;

verus! {

/// An IPv4 address, as the number that its four bytes make.
#[derive(Clone, Copy, Debug, PartialEq, Eq, Structural)]
pub struct Ipv4Addr {
    pub bits: u32,
}

/// An address of either family; an IPv6 address as its sixteen bytes, the
/// highest one first.
#[derive(Clone, Copy, Debug, PartialEq, Eq)]
pub enum IpAddr {
    V4(Ipv4Addr),
    V6([u8; 16]),
}

/// An address and a port, with the flow and the scope that an IPv6 address can
/// be given with.
#[derive(Clone, Copy, Debug, PartialEq, Eq)]
pub struct SocketAddr {
    pub ip: IpAddr,
    pub port: u16,
    pub flowinfo: u32,
    pub scope_id: u32,
}

/// A part of the client's address: as many of its first bits as are disclosed.
#[derive(Clone, Copy, Debug, PartialEq, Eq)]
pub struct ClientSubnet {
    pub ip: IpAddr,
    pub prefix_len: u8,
}

/// An address and a port, of no flow and no scope.
pub open spec fn plain_socket(ip: IpAddr, port: u16) -> SocketAddr {
    SocketAddr { ip, port, flowinfo: 0, scope_id: 0 }
}

impl SocketAddr {
    /// An address and a port, of no flow and no scope.
    pub fn new(ip: IpAddr, port: u16) -> (r: SocketAddr)
        ensures
            r == plain_socket(ip, port),
    {
        SocketAddr { ip, port, flowinfo: 0, scope_id: 0 }
    }
}

impl Ipv4Addr {
    /// The four bytes, the highest one first.
    pub open spec fn bytes(self) -> Seq<u8> {
        be32_bytes(self.bits)
    }

    /// The four bytes, the highest one first.
    pub fn octets(&self) -> (r: [u8; 4])
        ensures
            r@ == self.bytes(),
    {
        let v: u32 = self.bits;
        let r: [u8; 4] = [
            (v / 0x100_0000) as u8,
            (v / 0x1_0000 % 256) as u8,
            (v / 0x100 % 256) as u8,
            (v % 256) as u8,
        ];
        assert(r@ =~= self.bytes());
        r
    }
}

impl IpAddr {
    /// The bytes of the address, the highest one first.
    pub open spec fn bytes(self) -> Seq<u8> {
        match self {
            IpAddr::V4(ip) => ip.bytes(),
            IpAddr::V6(bytes) => bytes@,
        }
    }

    /// The bytes of the address, the highest one first.
    pub fn to_bytes(&self) -> (r: Vec<u8>)
        ensures
            r@ == self.bytes(),
    {
        let mut out: Vec<u8> = Vec::new();
        match self {
            IpAddr::V4(ip) => {
                let octets: [u8; 4] = ip.octets();
                let mut i: usize = 0;
                while i < 4
                    invariant
                        i <= 4,
                        out@ == octets@.take(i as int),
                    decreases 4 - i,
                {
                    out.push(octets[i]);
                    i += 1;
                    assert(out@ =~= octets@.take(i as int));
                }
                assert(octets@.take(4) =~= octets@);
            },
            IpAddr::V6(bytes) => {
                let mut i: usize = 0;
                while i < 16
                    invariant
                        i <= 16,
                        out@ == bytes@.take(i as int),
                    decreases 16 - i,
                {
                    out.push(bytes[i]);
                    i += 1;
                    assert(out@ =~= bytes@.take(i as int));
                }
                assert(bytes@.take(16) =~= bytes@);
            },
        }
        out
    }
}

/// Tells whether two lists of sixteen bytes are the same.
fn same_bytes(a: &[u8; 16], b: &[u8; 16]) -> (r: bool)
    ensures
        r == (*a == *b),
{
    let mut i: usize = 0;
    while i < 16
        invariant
            i <= 16,
            forall|k: int| 0 <= k < i ==> a@[k] == b@[k],
        decreases 16 - i,
    {
        if a[i] != b[i] {
            return false;
        }
        i += 1;
    }
    assert(a@ =~= b@);
    assert(*a =~= *b);
    true
}

/// Tells whether two addresses are the same.
fn same_ip(a: &IpAddr, b: &IpAddr) -> (r: bool)
    ensures
        r == (*a == *b),
{
    match (a, b) {
        (IpAddr::V4(a), IpAddr::V4(b)) => a.bits == b.bits,
        (IpAddr::V6(a), IpAddr::V6(b)) => same_bytes(a, b),
        _ => false,
    }
}

/// Tells whether two addresses with a port are the same.
pub fn same_socket(a: &SocketAddr, b: &SocketAddr) -> (r: bool)
    ensures
        r == (*a == *b),
{
    a.port == b.port && a.flowinfo == b.flowinfo && a.scope_id == b.scope_id && same_ip(
        &a.ip,
        &b.ip,
    )
}

/// The decimal texts of the four bytes.
pub open spec fn octet_texts(ip: Ipv4Addr) -> Seq<Seq<char>> {
    Seq::new(4, |i: int| digits(ip.bytes()[i] as nat))
}

/// An address as text: the four bytes in decimal, with dots between them.
pub open spec fn dotted(ip: Ipv4Addr) -> Seq<char> {
    join(octet_texts(ip), '.')
}

proof fn lemma_octets_hold_no_dot(ip: Ipv4Addr)
    ensures
        forall|i: int| 0 <= i < 4 ==> !(#[trigger] octet_texts(ip)[i]).contains('.'),
{
    assert forall|i: int| 0 <= i < 4 implies !(#[trigger] octet_texts(ip)[i]).contains('.') by {
        law_digits_read_back(ip.bytes()[i] as nat);
        let s = octet_texts(ip)[i];
        if s.contains('.') {
            let k = choose|k: int| 0 <= k < s.len() && s[k] == '.';
            assert(is_digit(s[k]));
        }
    }
}

/// Different addresses have different texts.
pub proof fn law_dotted_is_unique(a: Ipv4Addr, b: Ipv4Addr)
    requires
        dotted(a) == dotted(b),
    ensures
        a == b,
{
    lemma_octets_hold_no_dot(a);
    lemma_octets_hold_no_dot(b);
    law_split_of_join(octet_texts(a), '.');
    law_split_of_join(octet_texts(b), '.');
    assert forall|i: int| 0 <= i < 4 implies a.bytes()[i] == b.bytes()[i] by {
        assert(octet_texts(a)[i] == octet_texts(b)[i]);
        law_digits_read_back(a.bytes()[i] as nat);
        law_digits_read_back(b.bytes()[i] as nat);
    }
    assert(a.bytes()[0] == b.bytes()[0] && a.bytes()[1] == b.bytes()[1] && a.bytes()[2]
        == b.bytes()[2] && a.bytes()[3] == b.bytes()[3]);
}

/// The address of which a text is the dotted form, where there is one.
pub open spec fn ipv4_of(s: Seq<char>) -> Option<Ipv4Addr> {
    if exists|ip: Ipv4Addr| s == #[trigger] dotted(ip) {
        Some(choose|ip: Ipv4Addr| s == #[trigger] dotted(ip))
    } else {
        None
    }
}

/// The dotted form of an address reads back as that address.
pub proof fn law_dotted_reads_back(ip: Ipv4Addr)
    ensures
        ipv4_of(dotted(ip)) == Some(ip),
{
    let read = ipv4_of(dotted(ip))->Some_0;
    law_dotted_is_unique(ip, read);
}

/// Reads an IPv4 address from its dotted text.
pub fn parse_ipv4(s: &str) -> (r: Option<Ipv4Addr>)
    ensures
        r == ipv4_of(s@),
        r matches Some(ip) ==> s@ == dotted(ip),
{
    let parts: Vec<String> = split_text(s, '.');
    proof {
        assert forall|ip: Ipv4Addr| s@ == #[trigger] dotted(ip) implies texts(parts@)
            == octet_texts(ip) by {
            lemma_octets_hold_no_dot(ip);
            law_split_of_join(octet_texts(ip), '.');
        }
    }
    if parts.len() != 4 {
        return None;
    }
    let mut bytes: Vec<u8> = Vec::new();
    let mut i: usize = 0;
    while i < 4
        invariant
            i <= 4,
            parts@.len() == 4,
            bytes@.len() == i,
            forall|k: int| 0 <= k < i ==> (#[trigger] parts@[k])@ == digits(bytes@[k] as nat),
            forall|ip: Ipv4Addr| s@ == #[trigger] dotted(ip) ==> texts(parts@) == octet_texts(ip),
        decreases 4 - i,
    {
        match parse_octet(parts[i].as_str()) {
            Some(b) => {
                bytes.push(b);
            },
            None => {
                proof {
                    assert forall|ip: Ipv4Addr| s@ != #[trigger] dotted(ip) by {
                        if s@ == dotted(ip) {
                            assert(texts(parts@)[i as int] == octet_texts(ip)[i as int]);
                        }
                    }
                }
                return None;
            },
        }
        i += 1;
    }
    let bits: u32 = bytes[0] as u32 * 0x100_0000 + bytes[1] as u32 * 0x1_0000 + bytes[2] as u32
        * 0x100 + bytes[3] as u32;
    let ip: Ipv4Addr = Ipv4Addr { bits };
    proof {
        law_u32_of_bytes(bytes@[0], bytes@[1], bytes@[2], bytes@[3]);
        assert(texts(parts@) =~= octet_texts(ip));
        law_join_of_split(s@, '.');
        law_dotted_reads_back(ip);
    }
    Some(ip)
}

/// Appends the dotted text of an address.
pub fn push_dotted(out: &mut String, ip: &Ipv4Addr)
    ensures
        final(out)@ == old(out)@ + dotted(*ip),
{
    let b: [u8; 4] = ip.octets();
    let ghost start = out@;
    push_decimal(out, b[0] as u64);
    out.push('.');
    push_decimal(out, b[1] as u64);
    out.push('.');
    push_decimal(out, b[2] as u64);
    out.push('.');
    push_decimal(out, b[3] as u64);
    proof {
        let t = octet_texts(*ip);
        reveal_with_fuel(join, 5);
        assert(t.drop_last().drop_last().drop_last() =~= seq![t[0]]);
        assert(t.drop_last().drop_last().last() == t[1]);
        assert(t.drop_last().last() == t[2]);
        assert(t.last() == t[3]);
        assert(dotted(*ip) =~= ((t[0].push('.') + t[1]).push('.') + t[2]).push('.') + t[3]);
        assert(out@ =~= start + dotted(*ip));
    }
}

/// An address is written as its four bytes in decimal, the highest one first, with
/// dots between them. Nothing else is read as an address.
pub proof fn law_dotted_has_the_high_byte_first(ip: Ipv4Addr, s: Seq<char>)
    ensures
        dotted(ip) == digits((ip.bits / 0x100_0000) as nat) + "."@ + digits(
            (ip.bits / 0x1_0000 % 256) as nat,
        ) + "."@ + digits((ip.bits / 0x100 % 256) as nat) + "."@ + digits((ip.bits % 256) as nat),
        ipv4_of(s) == Some(ip) <==> s == dotted(ip),
{
    reveal_strlit(".");
    let parts = octet_texts(ip);
    let three = parts.drop_last();
    let two = three.drop_last();
    let one = two.drop_last();
    assert(join(one, '.') == parts[0]);
    assert(join(two, '.') =~= parts[0].push('.') + parts[1]);
    assert(join(three, '.') =~= parts[0].push('.') + parts[1].push('.') + parts[2]);
    assert(dotted(ip) =~= parts[0] + "."@ + parts[1] + "."@ + parts[2] + "."@ + parts[3]);
    law_dotted_reads_back(ip);
}

} // verus!
