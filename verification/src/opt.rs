//! The tunnel's options and the transport settings they give.

use crate::config::{IpAddress, SocketAddress};
use tokio_kcp::{KcpConfig, KcpNoDelayConfig};
use vstd::prelude::*;

verus! {

/// The transport's latency tuning.
#[derive(Clone, Copy, Debug, PartialEq, Eq, Structural)]
pub struct NoDelaySettings {
    /// Whether the no-delay mode is on.
    pub nodelay: bool,
    /// The internal update interval, in milliseconds.
    pub interval: i32,
    /// The number of acknowledgements that triggers a fast resend.
    pub resend: i32,
    /// Whether congestion control is off.
    pub nc: bool,
}

/// The transport's settings.
#[derive(Clone, Copy, Debug, PartialEq, Eq, Structural)]
pub struct KcpSettings {
    /// The maximum transmission unit.
    pub mtu: usize,
    /// The latency tuning.
    pub nodelay: NoDelaySettings,
    /// The send window, in packets.
    pub snd_wnd: u16,
    /// The receive window, in packets.
    pub rcv_wnd: u16,
    /// After how long an idle session expires: whole seconds.
    pub session_expire_secs: u64,
    /// After how long an idle session expires: the nanoseconds beyond the
    /// whole seconds.
    pub session_expire_nanos: u32,
    /// Whether the transport flushes after every write.
    pub flush_write: bool,
    /// Whether the transport flushes acknowledgements after every input.
    pub flush_acks_input: bool,
    /// Whether the transport runs in stream mode.
    pub stream: bool,
    /// Whether packets without payload are delivered.
    pub allow_recv_empty_packet: bool,
}

/// The window size, in packets, that the tunnel uses where the options
/// give none.
pub const DEFAULT_WINDOW: u16 = 4096;

/// The options of the tunnel, each absent or set.
#[derive(Clone, Debug)]
pub struct PluginOpts {
    pub mtu: Option<usize>,
    pub nodelay: Option<bool>,
    pub interval: Option<i32>,
    pub resend: Option<i32>,
    pub nc: Option<bool>,
    pub sndwnd: Option<u16>,
    pub rcvwnd: Option<u16>,
    pub stream: Option<bool>,
    /// The `SO_MARK` socket option for outbound sockets.
    pub outbound_fwmark: Option<u32>,
    /// The `SO_USER_COOKIE` socket option for outbound sockets.
    pub outbound_user_cookie: Option<u32>,
    /// The interface that outbound sockets are bound to.
    pub outbound_bind_interface: Option<String>,
    /// The address that outbound sockets are bound to.
    pub outbound_bind_addr: Option<IpAddress>,
}

impl Default for PluginOpts {
    fn default() -> (opts: PluginOpts)
        ensures
            opts.mtu is None,
            opts.nodelay is None,
            opts.interval is None,
            opts.resend is None,
            opts.nc is None,
            opts.sndwnd is None,
            opts.rcvwnd is None,
            opts.stream is None,
            opts.outbound_fwmark is None,
            opts.outbound_user_cookie is None,
            opts.outbound_bind_interface is None,
            opts.outbound_bind_addr is None,
    {
        PluginOpts {
            mtu: None,
            nodelay: None,
            interval: None,
            resend: None,
            nc: None,
            sndwnd: None,
            rcvwnd: None,
            stream: None,
            outbound_fwmark: None,
            outbound_user_cookie: None,
            outbound_bind_interface: None,
            outbound_bind_addr: None,
        }
    }
}

/// The transport's "normal" latency tuning.
pub open spec fn normal_nodelay() -> NoDelaySettings {
    NoDelaySettings { nodelay: false, interval: 40, resend: 0, nc: false }
}

/// The transport's own default settings.
pub open spec fn default_settings() -> KcpSettings {
    KcpSettings {
        mtu: 1400,
        nodelay: normal_nodelay(),
        snd_wnd: 256,
        rcv_wnd: 256,
        session_expire_secs: 90,
        session_expire_nanos: 0,
        flush_write: false,
        flush_acks_input: false,
        stream: false,
        allow_recv_empty_packet: false,
    }
}

/// `value`, or `default` where it is absent.
pub open spec fn or_default<T>(value: Option<T>, default: T) -> T {
    match value {
        Some(v) => v,
        None => default,
    }
}

/// The settings that options give: each option that is set replaces the
/// transport's default, stream mode is on unless it is switched off, and
/// the windows are 4096 packets unless given.
pub open spec fn settings_of(opts: PluginOpts) -> KcpSettings {
    KcpSettings {
        mtu: or_default(opts.mtu, default_settings().mtu),
        nodelay: NoDelaySettings {
            nodelay: or_default(opts.nodelay, normal_nodelay().nodelay),
            interval: or_default(opts.interval, normal_nodelay().interval),
            resend: or_default(opts.resend, normal_nodelay().resend),
            nc: or_default(opts.nc, normal_nodelay().nc),
        },
        snd_wnd: or_default(opts.sndwnd, DEFAULT_WINDOW),
        rcv_wnd: or_default(opts.rcvwnd, DEFAULT_WINDOW),
        stream: or_default(opts.stream, true),
        ..default_settings()
    }
}

/// The transport's default settings.
///
/// Calls `KcpConfig::default` of `tokio_kcp`, which gives an MTU of 1400,
/// the normal latency tuning, windows of 256 packets, a session expiry of 90
/// seconds, and every switch off.
#[verifier::external_body]
fn kcp_defaults() -> (s: KcpSettings)
    ensures
        s == default_settings(),
{
    let c = KcpConfig::default();
    let n = c.nodelay;
    let nodelay =
        NoDelaySettings { nodelay: n.nodelay, interval: n.interval, resend: n.resend, nc: n.nc };
    KcpSettings {
        mtu: c.mtu,
        nodelay,
        snd_wnd: c.wnd_size.0, rcv_wnd: c.wnd_size.1,
        session_expire_secs: c.session_expire.as_secs(),
        session_expire_nanos: c.session_expire.subsec_nanos(),
        flush_write: c.flush_write,
        flush_acks_input: c.flush_acks_input,
        stream: c.stream,
        allow_recv_empty_packet: c.allow_recv_empty_packet,
    }
}

/// The transport's normal latency tuning.
///
/// Calls `KcpNoDelayConfig::normal` of `tokio_kcp`, which gives no-delay
/// off, an interval of 40 ms, no fast resend, and congestion control on.
#[verifier::external_body]
fn kcp_normal_nodelay() -> (n: NoDelaySettings)
    ensures
        n == normal_nodelay(),
{
    let c = KcpNoDelayConfig::normal();
    NoDelaySettings { nodelay: c.nodelay, interval: c.interval, resend: c.resend, nc: c.nc }
}

/// The address that an outbound socket is bound to before it connects to
/// `target`: the address that the options give, or else the unspecified
/// address of the target's family; the port is left to the system.
pub open spec fn bind_addr_of(opts: PluginOpts, target: SocketAddress) -> SocketAddress {
    SocketAddress {
        ip: match opts.outbound_bind_addr {
            Some(ip) => ip,
            None => match target.ip {
                IpAddress::V4(_) => IpAddress::V4(0),
                IpAddress::V6(_) => IpAddress::V6(0),
            },
        },
        port: 0,
    }
}

impl PluginOpts {
    /// The address to bind an outbound socket to before it connects to
    /// `target`.
    pub fn outbound_bind(&self, target: &SocketAddress) -> (addr: SocketAddress)
        ensures
            addr == bind_addr_of(*self, *target),
    {
        let ip = match self.outbound_bind_addr {
            Some(ip) => ip,
            None => match target.ip {
                IpAddress::V4(_) => IpAddress::V4(0),
                IpAddress::V6(_) => IpAddress::V6(0),
            },
        };
        SocketAddress { ip, port: 0 }
    }

    /// The transport settings that these options give.
    pub fn build_kcp_config(&self) -> (settings: KcpSettings)
        ensures
            settings == settings_of(*self),
    {
        let mut kcp_config = kcp_defaults();
        kcp_config.stream = match self.stream {
            Some(stream) => stream,
            None => true,
        };
        if let Some(mtu) = self.mtu {
            kcp_config.mtu = mtu;
        }
        let mut nodelay = kcp_normal_nodelay();
        if let Some(nd) = self.nodelay {
            nodelay.nodelay = nd;
        }
        if let Some(itv) = self.interval {
            nodelay.interval = itv;
        }
        if let Some(resend) = self.resend {
            nodelay.resend = resend;
        }
        if let Some(nc) = self.nc {
            nodelay.nc = nc;
        }
        kcp_config.nodelay = nodelay;
        kcp_config.snd_wnd = match self.sndwnd {
            Some(w) => w,
            None => DEFAULT_WINDOW,
        };
        kcp_config.rcv_wnd = match self.rcvwnd {
            Some(w) => w,
            None => DEFAULT_WINDOW,
        };
        kcp_config
    }
}

} // verus!
