use vstd::prelude::*;

verus! {

/// The family of an IP address.
#[derive(Debug, Clone, Copy, PartialEq, Eq, Structural)]
pub enum IpFamily {
    V4,
    V6,
}

/// An IP address as plain values: its family and its bits (below `2^32`
/// for IPv4).
#[derive(Debug, Clone, Copy, PartialEq, Eq, Structural)]
pub struct IpAddress {
    pub family: IpFamily,
    pub bits: u128,
}

/// The number of bits in an address of a family.
pub open spec fn family_width(family: IpFamily) -> u32 {
    match family {
        IpFamily::V4 => 32,
        IpFamily::V6 => 128,
    }
}

/// An IP network: an address and a prefix length no longer than its
/// family's width. The address may have host bits set.
#[derive(Debug, Clone, Copy, PartialEq, Eq, Structural)]
pub struct IpNetwork {
    pub address: IpAddress,
    pub prefix_len: u8,
}

impl IpAddress {
    /// The bits fit the family.
    pub open spec fn valid(self) -> bool {
        self.family is V4 ==> self.bits < 0x1_0000_0000
    }

    /// An IPv4 address from its 32 bits.
    pub fn v4(bits: u32) -> (address: IpAddress)
        ensures
            address.valid(),
            address == (IpAddress { family: IpFamily::V4, bits: bits as u128 }),
    {
        IpAddress { family: IpFamily::V4, bits: bits as u128 }
    }

    /// An IPv6 address from its 128 bits.
    pub fn v6(bits: u128) -> (address: IpAddress)
        ensures
            address.valid(),
            address == (IpAddress { family: IpFamily::V6, bits }),
    {
        IpAddress { family: IpFamily::V6, bits }
    }
}

impl IpNetwork {
    /// The bits fit the family.
    pub open spec fn valid(self) -> bool {
        &&& self.address.valid()
        &&& self.prefix_len <= family_width(self.address.family)
    }

    /// The network contains the address: same family, and the first
    /// `prefix_len` bits agree (the address lies between the network's
    /// first and last address).
    pub open spec fn spec_contains(self, address: IpAddress) -> bool {
        let host_bits = (family_width(self.address.family) - self.prefix_len) as u128;
        &&& address.family == self.address.family
        &&& (self.prefix_len == 0 || (address.bits >> host_bits) == (self.address.bits >> host_bits))
    }

    /// `IpNet::contains` on an address, written out.
    pub fn contains(&self, address: &IpAddress) -> (inside: bool)
        requires
            self.valid(),
        ensures
            inside == self.spec_contains(*address),
    {
        if address.family != self.address.family {
            return false;
        }
        if self.prefix_len == 0 {
            return true;
        }
        let width: u32 = match self.address.family {
            IpFamily::V4 => 32,
            IpFamily::V6 => 128,
        };
        let host_bits: u32 = width - self.prefix_len as u32;
        (address.bits >> host_bits) == (self.address.bits >> host_bits)
    }

    /// The network that holds exactly one address.
    pub fn single(address: IpAddress) -> (network: IpNetwork)
        requires
            address.valid(),
        ensures
            network.valid(),
            network.address == address,
            network.prefix_len == family_width(address.family),
    {
        let prefix_len: u8 = match address.family {
            IpFamily::V4 => 32,
            IpFamily::V6 => 128,
        };
        IpNetwork { address, prefix_len }
    }
}

/// Whether any of the networks contains the address.
pub open spec fn any_contains(networks: Seq<IpNetwork>, address: IpAddress) -> bool {
    exists|i: int| 0 <= i < networks.len() && (#[trigger] networks[i]).spec_contains(address)
}

/// Whether any of the networks contains the address (`IpNet::contains`).
pub fn networks_contain(networks: &Vec<IpNetwork>, address: &IpAddress) -> (inside: bool)
    requires
        forall|i: int| 0 <= i < networks@.len() ==> (#[trigger] networks@[i]).valid(),
    ensures
        inside == any_contains(networks@, *address),
{
    for i in 0..networks.len()
        invariant
            forall|j: int| 0 <= j < networks@.len() ==> (#[trigger] networks@[j]).valid(),
            forall|j: int| 0 <= j < i ==> !(#[trigger] networks@[j]).spec_contains(*address),
    {
        if networks[i].contains(address) {
            return true;
        }
    }
    false
}

/// What `IpAddr::from_str` reads from a text, as plain values.
pub uninterp spec fn ip_address_from_text(text: Seq<char>) -> Option<IpAddress>;

/// Parses an IPv4 or IPv6 address (`core::net::IpAddr::from_str`). The
/// result is the name above applied to the text; an IPv4 result has bits
/// below `2^32`, since they come from a `u32`.
#[verifier::external_body]
pub(crate) fn parse_ip_address(text: &str) -> (address: Option<IpAddress>)
    ensures
        address == ip_address_from_text(text@),
        address matches Some(a) ==> a.valid(),
{
    match text.parse::<core::net::IpAddr>() {
        Ok(core::net::IpAddr::V4(v4)) => Some(IpAddress { family: IpFamily::V4, bits: u32::from(v4) as u128 }),
        Ok(core::net::IpAddr::V6(v6)) => Some(IpAddress { family: IpFamily::V6, bits: u128::from(v6) }),
        Err(_) => None,
    }
}

/// An IP address and a port.
#[derive(Debug, Clone, Copy, PartialEq, Eq, Structural)]
pub struct SocketAddress {
    pub ip: IpAddress,
    pub port: u16,
}

/// What `SocketAddr::from_str` reads from a text, such as `192.0.2.1:80`
/// or `[2001:db8::1]:443`: the address and port, or the error's text.
pub uninterp spec fn socket_address_from_text(text: Seq<char>) -> Result<(IpAddress, u16), Seq<char>>;

/// Parses a socket address (`core::net::SocketAddr::from_str`). The
/// result is the name above applied to the text; an IPv4 address has bits
/// below `2^32`, since they come from a `u32`.
#[verifier::external_body]
pub(crate) fn parse_socket_address(text: &str) -> (parsed: Result<SocketAddress, String>)
    ensures
        match parsed {
            Ok(s) => socket_address_from_text(text@) == Ok::<(IpAddress, u16), Seq<char>>((s.ip, s.port)) && s.ip.valid(),
            Err(e) => socket_address_from_text(text@) == Err::<(IpAddress, u16), Seq<char>>(e@),
        },
{
    match text.parse::<core::net::SocketAddr>() {
        Ok(socket) => {
            let ip = match socket.ip() {
                core::net::IpAddr::V4(v4) => IpAddress { family: IpFamily::V4, bits: u32::from(v4) as u128 },
                core::net::IpAddr::V6(v6) => IpAddress { family: IpFamily::V6, bits: u128::from(v6) },
            };
            Ok(SocketAddress { ip, port: socket.port() })
        },
        Err(error) => Err(error.to_string()),
    }
}

/// The text that `IpAddr`'s `Display` writes for an address (of its low 32
/// bits, for IPv4).
pub uninterp spec fn ip_address_display(address: IpAddress) -> Seq<char>;

/// Formats an address as `core::net::IpAddr` displays it.
#[verifier::external_body]
pub(crate) fn ip_address_text(address: &IpAddress) -> (text: String)
    ensures
        text@ == ip_address_display(*address),
{
    match address.family {
        IpFamily::V4 => core::net::Ipv4Addr::from(address.bits as u32).to_string(),
        IpFamily::V6 => core::net::Ipv6Addr::from(address.bits).to_string(),
    }
}

/// What `ipnet::IpNet::from_str` reads from a CIDR text, as plain values.
pub uninterp spec fn ip_network_from_text(text: Seq<char>) -> Option<IpNetwork>;

/// Parses a CIDR such as `10.0.0.0/8` (`ipnet::IpNet::from_str`). The
/// prefix length of a parsed network never exceeds its family's width.
#[verifier::external_body]
pub(crate) fn parse_ip_network(text: &str) -> (network: Option<IpNetwork>)
    ensures
        network == ip_network_from_text(text@),
        network matches Some(n) ==> n.valid(),
{
    match text.parse::<ipnet::IpNet>() {
        Ok(ipnet::IpNet::V4(net)) => Some(IpNetwork {
            address: IpAddress { family: IpFamily::V4, bits: u32::from(net.addr()) as u128 },
            prefix_len: net.prefix_len(),
        }),
        Ok(ipnet::IpNet::V6(net)) => Some(IpNetwork {
            address: IpAddress { family: IpFamily::V6, bits: u128::from(net.addr()) },
            prefix_len: net.prefix_len(),
        }),
        Err(_) => None,
    }
}

} // verus!
