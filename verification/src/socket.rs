//! Socket addresses, and the conversion between an address with a port and a
//! socket address.

use crate::ip::IpAddr;
use crate::ipv4::Ipv4Addr;
use crate::ipv6::Ipv6Addr;
use vstd::prelude::*;

verus! {

/// An IPv4 address with a port.
#[derive(Clone, Copy, Debug, PartialEq, Eq, Structural, Hash)]
pub struct SocketAddrV4 {
    pub ip: Ipv4Addr,
    pub port: u16,
}

/// An IPv6 address with a port, a flow label and a scope.
#[derive(Clone, Copy, Debug, PartialEq, Eq, Structural, Hash)]
pub struct SocketAddrV6 {
    pub ip: Ipv6Addr,
    pub port: u16,
    pub flowinfo: u32,
    pub scope_id: u32,
}

/// A socket address of either family.
#[derive(Clone, Copy, Debug, PartialEq, Eq, Structural, Hash)]
pub enum SocketAddr {
    V4(SocketAddrV4),
    V6(SocketAddrV6),
}

impl SocketAddrV4 {
    pub fn new(ip: Ipv4Addr, port: u16) -> (r: SocketAddrV4)
        ensures
            r == (SocketAddrV4 { ip, port }),
    {
        SocketAddrV4 { ip, port }
    }

    pub fn ip(&self) -> (r: &Ipv4Addr)
        ensures
            *r == self.ip,
    {
        &self.ip
    }

    pub fn port(&self) -> (r: u16)
        ensures
            r == self.port,
    {
        self.port
    }
}

impl SocketAddrV6 {
    pub fn new(ip: Ipv6Addr, port: u16, flowinfo: u32, scope_id: u32) -> (r: SocketAddrV6)
        ensures
            r == (SocketAddrV6 { ip, port, flowinfo, scope_id }),
    {
        SocketAddrV6 { ip, port, flowinfo, scope_id }
    }

    pub fn ip(&self) -> (r: &Ipv6Addr)
        ensures
            *r == self.ip,
    {
        &self.ip
    }

    pub fn port(&self) -> (r: u16)
        ensures
            r == self.port,
    {
        self.port
    }

    pub fn flowinfo(&self) -> (r: u32)
        ensures
            r == self.flowinfo,
    {
        self.flowinfo
    }

    pub fn scope_id(&self) -> (r: u32)
        ensures
            r == self.scope_id,
    {
        self.scope_id
    }
}

impl SocketAddr {
    /// The port of the socket address.
    pub open spec fn spec_port(self) -> u16 {
        match self {
            SocketAddr::V4(a) => a.port,
            SocketAddr::V6(a) => a.port,
        }
    }

    pub fn port(&self) -> (r: u16)
        ensures
            r == self.spec_port(),
    {
        match self {
            SocketAddr::V4(a) => a.port(),
            SocketAddr::V6(a) => a.port(),
        }
    }
}

/// The socket address of `ip` and `port`. For an IPv6 address the flow label
/// and the scope are zero.
pub open spec fn endpoint(ip: IpAddr, port: u16) -> SocketAddr {
    match ip {
        IpAddr::V4(a) => SocketAddr::V4(SocketAddrV4 { ip: a, port }),
        IpAddr::V6(a) => SocketAddr::V6(SocketAddrV6 { ip: a, port, flowinfo: 0, scope_id: 0 }),
    }
}

/// The address of a socket address, without its port, flow label and scope.
pub open spec fn endpoint_address(addr: SocketAddr) -> IpAddr {
    match addr {
        SocketAddr::V4(a) => IpAddr::V4(a.ip),
        SocketAddr::V6(a) => IpAddr::V6(a.ip),
    }
}

/// Conversion between an address with a port and a socket address.
pub trait SocketAddrExt {
    /// The socket address of the pair `ip` and `port`.
    fn new(ip: IpAddr, port: u16) -> (r: SocketAddr)
        ensures
            r == endpoint(ip, port),
    ;

    /// The socket address that `self` is.
    spec fn socket_addr(&self) -> SocketAddr;

    /// The IP address of this socket address.
    fn ip(&self) -> (r: IpAddr)
        ensures
            r == endpoint_address(self.socket_addr()),
    ;
}

impl SocketAddrExt for SocketAddr {
    fn new(ip: IpAddr, port: u16) -> (r: SocketAddr) {
        match ip {
            IpAddr::V4(a) => SocketAddr::V4(SocketAddrV4::new(a, port)),
            IpAddr::V6(a) => SocketAddr::V6(SocketAddrV6::new(a, port, 0, 0)),
        }
    }

    open spec fn socket_addr(&self) -> SocketAddr {
        *self
    }

    fn ip(&self) -> (r: IpAddr) {
        match self {
            SocketAddr::V4(a) => IpAddr::V4(*a.ip()),
            SocketAddr::V6(a) => IpAddr::V6(*a.ip()),
        }
    }
}

/// The address of the socket address made of `ip` and `port` is `ip`, and its
/// port is `port`.
pub proof fn lemma_endpoint_round_trip(ip: IpAddr, port: u16)
    ensures
        endpoint_address(endpoint(ip, port)) == ip,
        endpoint(ip, port).spec_port() == port,
        endpoint(ip, port) is V4 <==> ip is V4,
{
}

} // verus!
