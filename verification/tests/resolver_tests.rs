use sskcp::config::{IpAddress, ServerAddr, SocketAddress};
use sskcp::dns_resolver::{
    resolve, resolve_answer, resolve_server_addr, ConnectError, Dial, DialAction, DialEvent,
    ResolveError, Resolver, DNS_CACHE_ENTRIES, DNS_CACHE_SECS,
};

fn v4(a: u8, b: u8, c: u8, d: u8) -> IpAddress {
    IpAddress::V4(u32::from_be_bytes([a, b, c, d]))
}

fn sock(last: u8, port: u16) -> SocketAddress {
    SocketAddress { ip: v4(10, 0, 0, last), port }
}

#[test]
fn literal_needs_no_lookup() {
    let mut r = Resolver::new();
    assert_eq!(resolve(&mut r, "192.0.2.7", Some(v4(192, 0, 2, 7))), Some(v4(192, 0, 2, 7)));
    assert_eq!(resolve(&mut r, "192.0.2.7", None), None);
}

#[test]
fn answer_is_remembered() {
    let mut r = Resolver::new();
    assert_eq!(resolve(&mut r, "example.org", None), None);
    assert_eq!(
        resolve_answer(&mut r, "example.org".to_string(), Some(vec![v4(1, 2, 3, 4), v4(5, 6, 7, 8)])),
        Ok(v4(1, 2, 3, 4))
    );
    assert_eq!(resolve(&mut r, "example.org", None), Some(v4(1, 2, 3, 4)));
    assert_eq!(resolve(&mut r, "example.com", None), None);
    // a later answer replaces the earlier one
    assert_eq!(
        resolve_answer(&mut r, "example.org".to_string(), Some(vec![IpAddress::V6(1)])),
        Ok(IpAddress::V6(1))
    );
    assert_eq!(resolve(&mut r, "example.org", None), Some(IpAddress::V6(1)));
}

#[test]
fn no_answer_is_an_error() {
    let mut r = Resolver::new();
    assert_eq!(resolve_answer(&mut r, "nowhere".to_string(), None), Err(ResolveError::NotFound));
    assert_eq!(
        resolve_answer(&mut r, "nowhere".to_string(), Some(vec![])),
        Err(ResolveError::NotFound)
    );
    assert_eq!(resolve(&mut r, "nowhere", None), None);
}

#[test]
fn cache_is_bounded() {
    assert_eq!(DNS_CACHE_ENTRIES, 128);
    assert_eq!(DNS_CACHE_SECS, 300);
    let mut r = Resolver::new();
    for i in 0..=DNS_CACHE_ENTRIES {
        let name = format!("host{}", i);
        assert_eq!(
            resolve_answer(&mut r, name, Some(vec![IpAddress::V4(i as u32)])),
            Ok(IpAddress::V4(i as u32))
        );
    }
    // the name used longest ago made room for the last one
    assert_eq!(resolve(&mut r, "host0", None), None);
    assert_eq!(resolve(&mut r, "host1", None), Some(IpAddress::V4(1)));
    assert_eq!(resolve(&mut r, "host128", None), Some(IpAddress::V4(128)));
}

#[test]
fn server_addr_resolution() {
    let mut r = Resolver::new();
    let literal = ServerAddr::SocketAddr(sock(1, 8388));
    assert_eq!(resolve_server_addr(&mut r, &literal, None), Some(sock(1, 8388)));
    let name = ServerAddr::DomainName("broker.example".to_string(), 443);
    assert_eq!(resolve_server_addr(&mut r, &name, None), None);
    assert_eq!(
        resolve_answer(&mut r, "broker.example".to_string(), Some(vec![v4(10, 0, 0, 9)])),
        Ok(v4(10, 0, 0, 9))
    );
    assert_eq!(resolve_server_addr(&mut r, &name, None), Some(sock(9, 443)));
    let spelled = ServerAddr::DomainName("10.0.0.3".to_string(), 80);
    assert_eq!(
        resolve_server_addr(&mut r, &spelled, Some(v4(10, 0, 0, 3))),
        Some(sock(3, 80))
    );
}

#[test]
fn fallback_uses_the_first_address_that_connects() {
    let target = ServerAddr::DomainName("broker.example".to_string(), 443);
    let (mut dial, action) = Dial::start(&target);
    assert_eq!(action, DialAction::Lookup);
    let a = sock(1, 443);
    let b = sock(2, 443);
    assert_eq!(dial.step(DialEvent::Resolved(vec![a, b])), Some(DialAction::Try(a)));
    assert_eq!(dial.step(DialEvent::Failed(111)), Some(DialAction::Try(b)));
    assert_eq!(dial.step(DialEvent::Connected), Some(DialAction::Done(b)));
    // the attempt is over
    assert_eq!(dial.step(DialEvent::Connected), None);
    assert_eq!(dial.step(DialEvent::Failed(1)), None);
}

#[test]
fn fallback_reports_the_last_error() {
    let target = ServerAddr::DomainName("broker.example".to_string(), 443);
    let (mut dial, _) = Dial::start(&target);
    let addrs = vec![sock(1, 1), sock(2, 1), sock(3, 1)];
    assert_eq!(dial.step(DialEvent::Resolved(addrs)), Some(DialAction::Try(sock(1, 1))));
    assert_eq!(dial.step(DialEvent::Failed(111)), Some(DialAction::Try(sock(2, 1))));
    assert_eq!(dial.step(DialEvent::Failed(113)), Some(DialAction::Try(sock(3, 1))));
    assert_eq!(
        dial.step(DialEvent::Failed(110)),
        Some(DialAction::Fail(ConnectError::Io(110)))
    );
    assert_eq!(dial.step(DialEvent::Failed(110)), None);
}

#[test]
fn fallback_without_addresses() {
    let target = ServerAddr::DomainName("broker.example".to_string(), 443);
    let (mut dial, _) = Dial::start(&target);
    assert_eq!(dial.step(DialEvent::Connected), None);
    assert_eq!(dial.step(DialEvent::Failed(5)), None);
    assert_eq!(
        dial.step(DialEvent::Resolved(vec![])),
        Some(DialAction::Fail(ConnectError::NoAddress))
    );
    assert_eq!(dial.step(DialEvent::Resolved(vec![sock(1, 1)])), None);

    let (mut dial, _) = Dial::start(&target);
    assert_eq!(
        dial.step(DialEvent::LookupFailed(-2)),
        Some(DialAction::Fail(ConnectError::Io(-2)))
    );
    assert_eq!(dial.step(DialEvent::LookupFailed(-2)), None);
}

#[test]
fn literal_is_tried_at_once() {
    let target = ServerAddr::SocketAddr(sock(7, 8388));
    let (mut dial, action) = Dial::start(&target);
    assert_eq!(action, DialAction::Try(sock(7, 8388)));
    assert_eq!(dial.step(DialEvent::Resolved(vec![sock(1, 1)])), None);
    assert_eq!(dial.step(DialEvent::LookupFailed(1)), None);
    assert_eq!(dial.step(DialEvent::Failed(104)), Some(DialAction::Fail(ConnectError::Io(104))));

    let (mut dial, _) = Dial::start(&target);
    assert_eq!(dial.step(DialEvent::Connected), Some(DialAction::Done(sock(7, 8388))));
}
