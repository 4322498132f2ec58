//! Why a configuration is refused.
use vstd::prelude::*;

verus! {

/// Why a configuration is refused.
#[derive(Clone, Copy, Debug, PartialEq, Eq, Structural)]
pub enum ConfigError {
    /// A server is neither an address with a port nor an address.
    InvalidServerAddress,
    /// There is no default server.
    NoDefaultServer,
    /// A domain file cannot be read.
    UnreadableDomainFile,
    /// A line of local domains has no equals sign.
    LocalDomainWithoutAddress,
    /// What a line of local domains gives is no IPv4 address.
    InvalidLocalAddress,
    /// A forward rule has no upstream.
    NoUpstream,
    /// An nftables set is not given as a family, a table and a set.
    InvalidNftSet,
    /// The family of an nftables set is not known.
    UnsupportedFamily,
    /// A client subnet has no slash.
    SubnetWithoutPrefix,
    /// What stands before the slash of a client subnet is no address.
    InvalidSubnetAddress,
    /// What stands behind the slash of a client subnet is no number below 256.
    InvalidPrefixLength,
    /// The prefix of an IPv4 client subnet has more than 32 bits.
    Ipv4PrefixTooLong,
    /// The prefix of an IPv6 client subnet has more than 128 bits.
    Ipv6PrefixTooLong,
}

} // verus!
