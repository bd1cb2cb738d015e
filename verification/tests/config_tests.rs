use sskcp::config::{Config, IpAddress, ServerAddr, SocketAddress};
use sskcp::opt::{KcpSettings, NoDelaySettings, PluginOpts, DEFAULT_WINDOW};
use sskcp::plugin::{launch_plugin, PluginConfig, PluginMode, LOOPBACK_V4};

fn expect_literal(addr: &ServerAddr, ip: IpAddress, port: u16) {
    match addr {
        ServerAddr::SocketAddr(s) => assert_eq!(*s, SocketAddress { ip, port }),
        other => panic!("not a literal: {:?}", other),
    }
}

#[test]
fn server_addr_from_str() {
    let a = ServerAddr::from_str("127.0.0.1".to_string(), Some(IpAddress::V4(0x7f000001)), 8388);
    expect_literal(&a, IpAddress::V4(0x7f000001), 8388);
    assert_eq!(a.port(), 8388);
    assert_eq!(a.literal(), Some(SocketAddress { ip: IpAddress::V4(0x7f000001), port: 8388 }));
    assert_eq!(a.domain(), None);

    let b = ServerAddr::from_str("example.org".to_string(), None, 443);
    match &b {
        ServerAddr::DomainName(name, port) => {
            assert_eq!(name, "example.org");
            assert_eq!(*port, 443);
        }
        other => panic!("not a name: {:?}", other),
    }
    assert_eq!(b.port(), 443);
    assert_eq!(b.literal(), None);
    assert_eq!(b.domain(), Some(&"example.org".to_string()));

    let c = ServerAddr::from_str("::1".to_string(), Some(IpAddress::V6(1)), 0);
    expect_literal(&c, IpAddress::V6(1), 0);
}

#[test]
fn default_options_give_the_tunnel_defaults() {
    let opts = PluginOpts::default();
    assert_eq!(
        opts.build_kcp_config(),
        KcpSettings {
            mtu: 1400,
            nodelay: NoDelaySettings { nodelay: false, interval: 40, resend: 0, nc: false },
            snd_wnd: 4096,
            rcv_wnd: 4096,
            session_expire_secs: 90,
            session_expire_nanos: 0,
            flush_write: false,
            flush_acks_input: false,
            stream: true,
            allow_recv_empty_packet: false,
        }
    );
    assert_eq!(DEFAULT_WINDOW, 4096);
}

#[test]
fn options_replace_defaults() {
    let mut opts = PluginOpts::default();
    opts.mtu = Some(1200);
    opts.nodelay = Some(true);
    opts.interval = Some(10);
    opts.resend = Some(2);
    opts.nc = Some(true);
    opts.sndwnd = Some(1024);
    opts.stream = Some(false);
    let s = opts.build_kcp_config();
    assert_eq!(s.mtu, 1200);
    assert_eq!(s.nodelay, NoDelaySettings { nodelay: true, interval: 10, resend: 2, nc: true });
    assert_eq!((s.snd_wnd, s.rcv_wnd), (1024, 4096));
    assert!(!s.stream);
    assert_eq!(s.session_expire_secs, 90);

    let mut opts = PluginOpts::default();
    opts.rcvwnd = Some(64);
    opts.interval = Some(20);
    let s = opts.build_kcp_config();
    assert_eq!((s.snd_wnd, s.rcv_wnd), (4096, 64));
    assert_eq!(s.nodelay, NoDelaySettings { nodelay: false, interval: 20, resend: 0, nc: false });
}

fn config() -> Config {
    Config {
        local_addr: ServerAddr::from_str("127.0.0.1".to_string(), Some(IpAddress::V4(LOOPBACK_V4)), 1080),
        remote_addr: ServerAddr::from_str("broker.example".to_string(), None, 8388),
        kcp_config: None,
        plugin_opts: PluginOpts::default(),
    }
}

#[test]
fn client_plugin_takes_over_the_remote_address() {
    let mut c = config();
    let addr = launch_plugin(&mut c, PluginMode::Client, 40000);
    expect_literal(&addr, IpAddress::V4(0x7f000001), 40000);
    expect_literal(&c.remote_addr, IpAddress::V4(0x7f000001), 40000);
    expect_literal(&c.local_addr, IpAddress::V4(0x7f000001), 1080);
}

#[test]
fn server_plugin_takes_over_the_local_address() {
    let mut c = config();
    let addr = launch_plugin(&mut c, PluginMode::Server, 40001);
    expect_literal(&addr, IpAddress::V4(0x7f000001), 40001);
    expect_literal(&c.local_addr, IpAddress::V4(0x7f000001), 40001);
    assert_eq!(c.remote_addr.domain(), Some(&"broker.example".to_string()));
    assert_eq!(c.remote_addr.port(), 8388);
}

#[test]
fn plugin_config_holds_its_options() {
    let p = PluginConfig { plugin: "obfsproxy".to_string(), plugin_opt: Some("x=1".to_string()) };
    let q = p.clone();
    assert_eq!(q.plugin, "obfsproxy");
    assert_eq!(q.plugin_opt, Some("x=1".to_string()));
    assert_ne!(PluginMode::Client, PluginMode::Server);
}
