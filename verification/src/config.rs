//! Addresses and the configuration of a broker.

use crate::opt::{KcpSettings, PluginOpts};
use vstd::prelude::*;

verus! {

/// An IP address as a number: the 32 bits of an IPv4 address, or the 128
/// bits of an IPv6 address, most significant byte first.
#[derive(Clone, Copy, Debug, PartialEq, Eq, Structural)]
pub enum IpAddress {
    V4(u32),
    V6(u128),
}

/// An IP address and a port.
#[derive(Clone, Copy, Debug, PartialEq, Eq, Structural)]
pub struct SocketAddress {
    pub ip: IpAddress,
    pub port: u16,
}

/// Where a broker listens, or where it sends to: a literal address, or a
/// host name with a port.
#[derive(Clone, Debug)]
pub enum ServerAddr {
    SocketAddr(SocketAddress),
    DomainName(String, u16),
}

impl ServerAddr {
    /// The address for `host` and `port`. `literal` is the IP address that
    /// `host` spells, if it spells one; a host that spells none is a name.
    pub fn from_str(host: String, literal: Option<IpAddress>, port: u16) -> (addr: ServerAddr)
        ensures
            addr == (match literal {
                Some(ip) => ServerAddr::SocketAddr(SocketAddress { ip, port }),
                None => ServerAddr::DomainName(host, port),
            }),
    {
        match literal {
            Some(ip) => ServerAddr::SocketAddr(SocketAddress { ip, port }),
            None => ServerAddr::DomainName(host, port),
        }
    }

    /// The port, as contracts see it.
    pub open spec fn spec_port(&self) -> u16 {
        match *self {
            ServerAddr::SocketAddr(addr) => addr.port,
            ServerAddr::DomainName(_, port) => port,
        }
    }

    /// The port of the address.
    pub fn port(&self) -> (p: u16)
        ensures
            p == self.spec_port(),
    {
        match self {
            ServerAddr::SocketAddr(addr) => addr.port,
            ServerAddr::DomainName(_, port) => *port,
        }
    }

    /// The literal address, where this is one.
    pub fn literal(&self) -> (a: Option<SocketAddress>)
        ensures
            a == (match *self {
                ServerAddr::SocketAddr(addr) => Some(addr),
                ServerAddr::DomainName(_, _) => None,
            }),
    {
        match self {
            ServerAddr::SocketAddr(addr) => Some(*addr),
            ServerAddr::DomainName(_, _) => None,
        }
    }

    /// The host name, where this is one.
    pub fn domain(&self) -> (d: Option<&String>)
        ensures
            d == (match *self {
                ServerAddr::SocketAddr(_) => None,
                ServerAddr::DomainName(name, _) => Some(&name),
            }),
    {
        match self {
            ServerAddr::SocketAddr(_) => None,
            ServerAddr::DomainName(name, _) => Some(name),
        }
    }
}

/// What a broker is started with. Nothing changes it afterwards.
#[derive(Clone, Debug)]
pub struct Config {
    /// Local broker: where to listen for TCP. Remote broker: the service to
    /// forward to.
    pub local_addr: ServerAddr,
    /// Local broker: the remote broker to reach. Remote broker: where to
    /// listen for sessions.
    pub remote_addr: ServerAddr,
    /// The transport's settings; its own defaults where absent.
    pub kcp_config: Option<KcpSettings>,
    /// The options that the settings were built from.
    pub plugin_opts: PluginOpts,
}

} // verus!
