use proxy_discover::addr::Address;
use proxy_discover::dst::{Addr, Direction, DstAddr, NameAddr, NoRetry, OutAddr, Retry};
use proxy_discover::require_identity::{layer, Endpoint, IdentityName, PeerIdentity};

fn sock() -> Address {
    Address::v4(10, 0, 0, 1, 8080)
}

#[test]
fn address_from_octets() {
    let a = Address::v4(127, 0, 0, 1, 80);
    assert_eq!(a.ip, 0x7f000001);
    assert_eq!(a.port, 80);
}

#[test]
fn outbound_socket_has_no_name() {
    let d = DstAddr::outbound(OutAddr::Socket(sock()));
    assert_eq!(d.direction(), Direction::Out);
    assert_eq!(*d.addr(), Addr::Socket(sock()));
    assert!(d.get_destination().is_none());
}

#[test]
fn outbound_named_socket_keeps_name_at_socket_port() {
    let d = DstAddr::outbound(OutAddr::NamedSocket {
        socket: sock(),
        name: String::from("web.example.com"),
    });
    assert_eq!(d.direction(), Direction::Out);
    assert_eq!(*d.addr(), Addr::Socket(sock()));
    let n = d.get_destination().expect("named socket must resolve by name");
    assert_eq!(*n, NameAddr::new(String::from("web.example.com"), 8080));
}

#[test]
fn outbound_name_resolves_by_it() {
    let n = NameAddr::new(String::from("api.example.com"), 443);
    let d = DstAddr::outbound(OutAddr::Name(n.clone()));
    assert_eq!(*d.get_destination().expect("name must be the destination"), n);
}

#[test]
fn inbound_keeps_addr_and_direction() {
    let n = NameAddr::new(String::from("in.example.com"), 80);
    let d = DstAddr::inbound(Addr::Name(n.clone()));
    assert_eq!(d.direction(), Direction::In);
    assert_eq!(*d.get_destination().expect("inbound name"), n);
}

#[test]
fn route_carries_labels() {
    let d = DstAddr::outbound(OutAddr::Socket(sock()));
    let route = d.with_route(vec![(String::from("dst"), String::from("web"))]);
    assert_eq!(route.labels().len(), 1);
    assert_eq!(route.labels()[0].1, "web");
}

#[test]
fn retry_decision_follows_classification_and_budget() {
    let retry = Retry::new();
    assert!(retry.retry(true, true).is_ok());
    assert_eq!(retry.retry(true, false), Err(NoRetry::Budget));
    assert_eq!(retry.retry(false, true), Err(NoRetry::Success));
    assert_eq!(retry.retry(false, false), Err(NoRetry::Success));
}

#[test]
fn no_required_identity_passes() {
    let svc = layer().layer(0u8).call(Endpoint {
        addr: sock(),
        peer_identity: PeerIdentity::Unidentified,
    }).poll();
    assert!(svc.permit(None).is_ok());
}

#[test]
fn matching_identity_passes() {
    let svc = layer().layer(0u8).call(Endpoint {
        addr: sock(),
        peer_identity: PeerIdentity::Identified(IdentityName::new(String::from("spiffe.example"))),
    }).poll();
    let req = IdentityName::new(String::from("spiffe.example"));
    assert!(svc.permit(Some(&req)).is_ok());
}

#[test]
fn mismatched_identity_fails_with_both_names() {
    let svc = layer().layer(0u8).call(Endpoint {
        addr: sock(),
        peer_identity: PeerIdentity::Identified(IdentityName::new(String::from("other.example"))),
    }).poll();
    let req = IdentityName::new(String::from("spiffe.example"));
    let err = svc.permit(Some(&req)).expect_err("identities differ");
    assert!(err.require_identity().same_as(&req));
    let peer = err.peer_identity().as_ref().expect("peer identity was known");
    assert!(peer.same_as(&IdentityName::new(String::from("other.example"))));
}

#[test]
fn missing_identity_fails_without_peer() {
    let svc = layer().layer(0u8).call(Endpoint {
        addr: sock(),
        peer_identity: PeerIdentity::Unidentified,
    }).poll();
    let req = IdentityName::new(String::from("spiffe.example"));
    let err = svc.permit(Some(&req)).expect_err("no peer identity");
    assert!(err.require_identity().same_as(&req));
    assert!(err.peer_identity().is_none());
}
