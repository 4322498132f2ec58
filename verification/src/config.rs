//! The configuration.
use crate::addr::{plain_socket, ClientSubnet, IpAddr, SocketAddr};
use crate::decimal::{byte_value, parse_byte};
use crate::error::ConfigError;
use crate::nft::NftElement;
use crate::text::{find, find_char, from_chars, texts, to_chars};
use vstd::hash_map::StringHashMap;
use vstd::prelude::*;

verus! {

/// How many responses are kept, and for how long.
#[derive(Clone, Copy, Debug, PartialEq, Eq, Structural)]
pub struct CacheConfig {
    pub max_entries: usize,
    pub min_ttl: u64,
    pub max_ttl: u64,
}

impl CacheConfig {
    /// A lifetime with the cap and then the floor applied to it.
    pub open spec fn normalized(self, value: u64) -> u64 {
        if value > self.max_ttl {
            self.max_ttl
        } else if value < self.min_ttl {
            self.min_ttl
        } else {
            value
        }
    }

    /// Applies the cap and the floor to a lifetime.
    pub fn normalize_ttl(&self, value: u64) -> (r: u64)
        ensures
            r == self.normalized(value),
    {
        if value > self.max_ttl {
            self.max_ttl
        } else if value < self.min_ttl {
            self.min_ttl
        } else {
            value
        }
    }
}

/// A hundred thousand responses, each for one minute at least and for one hour
/// at most.
pub open spec fn default_cache() -> CacheConfig {
    CacheConfig { max_entries: 100_000, min_ttl: 60, max_ttl: 3600 }
}

impl Default for CacheConfig {
    fn default() -> (r: Self)
        ensures
            r == default_cache(),
    {
        CacheConfig { max_entries: 100_000, min_ttl: 60, max_ttl: 3600 }
    }
}

/// A normalized lifetime lies between the floor and the cap, where the floor
/// does not exceed the cap.
pub proof fn law_normalized_in_bounds(cache: CacheConfig, value: u64)
    requires
        cache.min_ttl <= cache.max_ttl,
    ensures
        cache.min_ttl <= cache.normalized(value) <= cache.max_ttl,
{
}

/// A lifetime between the floor and the cap stays as it is.
pub proof fn law_normalized_keeps(cache: CacheConfig, value: u64)
    requires
        cache.min_ttl <= value <= cache.max_ttl,
    ensures
        cache.normalized(value) == value,
{
}

/// Longer lifetimes stay longer, where the floor does not exceed the cap.
pub proof fn law_normalized_is_monotone(cache: CacheConfig, a: u64, b: u64)
    requires
        cache.min_ttl <= cache.max_ttl,
        a <= b,
    ensures
        cache.normalized(a) <= cache.normalized(b),
{
}

/// What a rule does with the domains in its files.
pub enum RuleKind {
    /// Their queries go to these upstreams.
    Forward { upstreams: Vec<String>, block_aaaa: bool, nft_set: Option<String> },
    /// They do not exist.
    Block,
    /// Their addresses stand beside them.
    Local,
    /// They are aliases of these names.
    Cname { cname_list: Vec<String> },
}

/// A rule as it is written.
pub struct RuleConfig {
    pub name: Option<String>,
    pub domain_files: Vec<String>,
    pub edns_client_subnet: Option<String>,
    pub kind: RuleKind,
}

/// A configuration as it is written.
pub struct RawConfig {
    pub listen: String,
    pub default_server: Vec<String>,
    pub rules: Vec<RuleConfig>,
    pub cache: Option<CacheConfig>,
    pub edns_client_subnet: Option<String>,
}

/// What the texts of a configuration stand for on this machine.
pub struct Surroundings {
    /// The contents of the domain files that can be read, by their names.
    pub files: StringHashMap<String>,
    /// The texts that are addresses with a port.
    pub sockets: StringHashMap<SocketAddr>,
    /// The texts that are addresses.
    pub addresses: StringHashMap<IpAddr>,
    /// The elements of the nftables sets, by the texts that name the sets.
    pub listings: StringHashMap<Vec<NftElement>>,
}

impl Surroundings {
    /// Nothing can be read, and no text stands for anything.
    pub fn new() -> (r: Surroundings)
        ensures
            r.files@ == Map::<Seq<char>, String>::empty(),
            r.sockets@ == Map::<Seq<char>, SocketAddr>::empty(),
            r.addresses@ == Map::<Seq<char>, IpAddr>::empty(),
            r.listings@ == Map::<Seq<char>, Vec<NftElement>>::empty(),
    {
        Surroundings {
            files: StringHashMap::new(),
            sockets: StringHashMap::new(),
            addresses: StringHashMap::new(),
            listings: StringHashMap::new(),
        }
    }

    /// A file with its content.
    pub fn add_file(&mut self, name: &str, content: String)
        ensures
            *final(self) == (Surroundings { files: final(self).files, ..*old(self) }),
            final(self).files@ == old(self).files@.insert(name@, content),
    {
        self.files.insert(name.to_owned(), content);
    }

    /// A text that is an address with a port.
    pub fn add_socket(&mut self, text: &str, socket: SocketAddr)
        ensures
            *final(self) == (Surroundings { sockets: final(self).sockets, ..*old(self) }),
            final(self).sockets@ == old(self).sockets@.insert(text@, socket),
    {
        self.sockets.insert(text.to_owned(), socket);
    }

    /// A text that is an address.
    pub fn add_address(&mut self, text: &str, ip: IpAddr)
        ensures
            *final(self) == (Surroundings { addresses: final(self).addresses, ..*old(self) }),
            final(self).addresses@ == old(self).addresses@.insert(text@, ip),
    {
        self.addresses.insert(text.to_owned(), ip);
    }

    /// The elements of the nftables set that a text names.
    pub fn add_listing(&mut self, text: &str, elements: Vec<NftElement>)
        ensures
            *final(self) == (Surroundings { listings: final(self).listings, ..*old(self) }),
            final(self).listings@ == old(self).listings@.insert(text@, elements),
    {
        self.listings.insert(text.to_owned(), elements);
    }
}

/// The port of a server that is given without one.
pub const DNS_PORT: u16 = 53;

/// The server that a text stands for.
pub open spec fn server_addr(env: Surroundings, text: Seq<char>) -> Result<
    SocketAddr,
    ConfigError,
> {
    if env.sockets@.contains_key(text) {
        Ok(env.sockets@[text])
    } else if env.addresses@.contains_key(text) {
        Ok(plain_socket(env.addresses@[text], DNS_PORT))
    } else {
        Err(ConfigError::InvalidServerAddress)
    }
}

/// Finds the server that a text stands for.
pub fn parse_dns_server_addr(env: &Surroundings, s: &str) -> (r: Result<SocketAddr, ConfigError>)
    ensures
        r == server_addr(*env, s@),
{
    match env.sockets.get(s) {
        Some(socket) => Ok(*socket),
        None => match env.addresses.get(s) {
            Some(ip) => Ok(SocketAddr::new(*ip, DNS_PORT)),
            None => Err(ConfigError::InvalidServerAddress),
        },
    }
}

/// The servers that the first `count` texts stand for, or why the first faulty
/// one of them is refused.
pub open spec fn servers(env: Surroundings, list: Seq<Seq<char>>, count: nat) -> Result<
    Seq<SocketAddr>,
    ConfigError,
>
    decreases count,
{
    if count == 0 {
        Ok(Seq::empty())
    } else {
        match servers(env, list, (count - 1) as nat) {
            Err(e) => Err(e),
            Ok(before) => match server_addr(env, list[count - 1]) {
                Err(e) => Err(e),
                Ok(server) => Ok(before.push(server)),
            },
        }
    }
}

proof fn lemma_servers_error_stays(
    env: Surroundings,
    list: Seq<Seq<char>>,
    some: nat,
    more: nat,
)
    requires
        some <= more,
        servers(env, list, some) is Err,
    ensures
        servers(env, list, more) == servers(env, list, some),
    decreases more,
{
    if some < more {
        lemma_servers_error_stays(env, list, some, (more - 1) as nat);
    }
}

/// Finds the servers that a list of texts stands for.
pub fn parse_servers(env: &Surroundings, list: &Vec<String>) -> (r: Result<
    Vec<SocketAddr>,
    ConfigError,
>)
    ensures
        match servers(*env, texts(list@), list@.len()) {
            Ok(found) => r matches Ok(v) && v@ == found,
            Err(e) => r matches Err(err) && err == e,
        },
{
    let mut out: Vec<SocketAddr> = Vec::new();
    let mut i: usize = 0;
    while i < list.len()
        invariant
            i <= list@.len(),
            servers(*env, texts(list@), i as nat) == Ok::<Seq<SocketAddr>, ConfigError>(out@),
        decreases list@.len() - i,
    {
        proof {
            if servers(*env, texts(list@), (i + 1) as nat) is Err {
                lemma_servers_error_stays(*env, texts(list@), (i + 1) as nat, list@.len());
            }
        }
        match parse_dns_server_addr(env, list[i].as_str()) {
            Ok(server) => {
                out.push(server);
            },
            Err(e) => {
                return Err(e);
            },
        }
        i += 1;
    }
    Ok(out)
}

/// The longest prefix of an address.
pub open spec fn prefix_limit(ip: IpAddr) -> u8 {
    match ip {
        IpAddr::V4(_) => 32,
        IpAddr::V6(_) => 128,
    }
}

/// The client subnet that a text stands for: an address, a slash and the length
/// of a prefix.
pub open spec fn client_subnet(env: Surroundings, text: Seq<char>) -> Result<
    ClientSubnet,
    ConfigError,
> {
    let at = find(text, '/');
    if at >= text.len() {
        Err(ConfigError::SubnetWithoutPrefix)
    } else if !env.addresses@.contains_key(text.take(at)) {
        Err(ConfigError::InvalidSubnetAddress)
    } else {
        let ip = env.addresses@[text.take(at)];
        match byte_value(text.skip(at + 1)) {
            None => Err(ConfigError::InvalidPrefixLength),
            Some(prefix_len) => if prefix_len <= prefix_limit(ip) {
                Ok(ClientSubnet { ip, prefix_len })
            } else {
                match ip {
                    IpAddr::V4(_) => Err(ConfigError::Ipv4PrefixTooLong),
                    IpAddr::V6(_) => Err(ConfigError::Ipv6PrefixTooLong),
                }
            },
        }
    }
}

/// Gives the address part of a client subnet, where there is a slash.
pub fn subnet_address(s: &str) -> (r: Option<String>)
    ensures
        match r {
            Some(text) => find(s@, '/') < s@.len() && text@ == s@.take(find(s@, '/')),
            None => find(s@, '/') >= s@.len(),
        },
{
    let chars: Vec<char> = to_chars(s);
    let at: usize = find_char(&chars, '/');
    if at >= chars.len() {
        return None;
    }
    let text: String = from_chars(&chars, 0, at);
    assert(text@ =~= s@.take(at as int));
    Some(text)
}

/// Finds the client subnet that a text stands for.
pub fn parse_client_subnet(env: &Surroundings, s: &str) -> (r: Result<ClientSubnet, ConfigError>)
    ensures
        r == client_subnet(*env, s@),
{
    let chars: Vec<char> = to_chars(s);
    let at: usize = find_char(&chars, '/');
    if at >= chars.len() {
        return Err(ConfigError::SubnetWithoutPrefix);
    }
    let address: String = from_chars(&chars, 0, at);
    let prefix: String = from_chars(&chars, at + 1, chars.len());
    assert(address@ =~= s@.take(at as int));
    assert(prefix@ =~= s@.skip(at + 1));
    let ip: IpAddr = match env.addresses.get(address.as_str()) {
        Some(ip) => *ip,
        None => {
            return Err(ConfigError::InvalidSubnetAddress);
        },
    };
    match parse_byte(prefix.as_str()) {
        None => Err(ConfigError::InvalidPrefixLength),
        Some(prefix_len) => match ip {
            IpAddr::V4(_) => if prefix_len > 32 {
                Err(ConfigError::Ipv4PrefixTooLong)
            } else {
                Ok(ClientSubnet { ip, prefix_len })
            },
            IpAddr::V6(_) => if prefix_len > 128 {
                Err(ConfigError::Ipv6PrefixTooLong)
            } else {
                Ok(ClientSubnet { ip, prefix_len })
            },
        },
    }
}

} // verus!
