//! Plugins in the SIP003 convention: a helper process that transforms the
//! traffic on one side of the tunnel.

use crate::config::{Config, IpAddress, ServerAddr, SocketAddress};
use vstd::prelude::*;

verus! {

/// Which plugin to start, and with which options.
#[derive(Debug, Clone)]
pub struct PluginConfig {
    pub plugin: String,
    pub plugin_opt: Option<String>,
}

/// The side of the tunnel that a plugin runs on.
#[derive(Debug, Clone, Copy, PartialEq, Eq, Structural)]
pub enum PluginMode {
    Server,
    Client,
}

/// The loopback address `127.0.0.1` as a number.
pub const LOOPBACK_V4: u32 = 0x7f00_0001;

/// The loopback address with the given port.
pub open spec fn loopback(port: u16) -> ServerAddr {
    ServerAddr::SocketAddr(SocketAddress { ip: IpAddress::V4(LOOPBACK_V4), port })
}

/// Puts a plugin between the broker and its peer. The plugin was given
/// the loopback address with `port`; the broker now talks to that address
/// in place of the one the plugin took over: the remote address on the
/// client's side, the local address on the server's. The result is the
/// plugin's address.
pub fn launch_plugin(config: &mut Config, mode: PluginMode, port: u16) -> (addr: ServerAddr)
    ensures
        addr == loopback(port),
        final(config).kcp_config == old(config).kcp_config,
        final(config).plugin_opts == old(config).plugin_opts,
        match mode {
            PluginMode::Client => final(config).remote_addr == loopback(port)
                && final(config).local_addr == old(config).local_addr,
            PluginMode::Server => final(config).local_addr == loopback(port)
                && final(config).remote_addr == old(config).remote_addr,
        },
{
    let ip = IpAddress::V4(LOOPBACK_V4);
    match mode {
        PluginMode::Client => {
            config.remote_addr = ServerAddr::SocketAddr(SocketAddress { ip, port });
        },
        PluginMode::Server => {
            config.local_addr = ServerAddr::SocketAddr(SocketAddress { ip, port });
        },
    }
    ServerAddr::SocketAddr(SocketAddress { ip, port })
}

} // verus!
