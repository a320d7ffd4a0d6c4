use discovery::cache::Update;
use discovery::discover::{BuildOutcome, Discover, HasEndpointStatus, UpdateStep};
use discovery::dns::Name;
use discovery::metadata::{
    merge_labels, pb_to_addr_meta, pb_to_id, Metadata, ProtocolHint, WeightedAddr,
    WireIdentityStrategy, WireProtocolHint, WireTlsIdentity,
};
use discovery::net::{IpAddrRepr, SockAddr, TcpAddress, WireIp, WireIpAddress};
use discovery::resolution::{
    destination_request, Authority, Resolution, RxAction, RxError, RxEvent, WireUpdate,
};
use discovery::tap::{authorize_tap, TapAccess};

fn v4(octets: u32, port: u16) -> SockAddr {
    SockAddr { ip: IpAddrRepr::V4(octets), port }
}

fn wire_v4(octets: u32, port: u32) -> TcpAddress {
    TcpAddress { ip: Some(WireIpAddress { ip: Some(WireIp::V4(octets)) }), port }
}

fn labels(pairs: &[(&str, &str)]) -> Vec<(Vec<u8>, Vec<u8>)> {
    pairs.iter().map(|(k, v)| (k.as_bytes().to_vec(), v.as_bytes().to_vec())).collect()
}

#[test]
fn labels_merge_sorted_with_endpoint_override() {
    let set = labels(&[("zone", "east"), ("app", "web")]);
    let ep = labels(&[("pod", "p1"), ("app", "api")]);
    let merged = merge_labels(&set, &ep);
    // Keys sorted lexicographically; the endpoint's value wins for "app".
    assert_eq!(merged, labels(&[("app", "api"), ("pod", "p1"), ("zone", "east")]));
}

#[test]
fn weighted_addr_decodes_to_endpoint() {
    let pb = WeightedAddr {
        addr: Some(wire_v4(0x0a00_0001, 9090)),
        weight: 7,
        metric_labels: labels(&[("pod", "p1")]),
        protocol_hint: Some(WireProtocolHint { h2: true }),
        tls_identity: Some(WireTlsIdentity {
            strategy: Some(WireIdentityStrategy::DnsLikeIdentity(b"Web.example.com".to_vec())),
        }),
    };
    let set = labels(&[("zone", "east")]);
    let (addr, meta) = pb_to_addr_meta(pb, &set).unwrap();
    assert_eq!(addr, v4(0x0a00_0001, 9090));
    assert_eq!(meta.labels, labels(&[("pod", "p1"), ("zone", "east")]));
    assert_eq!(meta.protocol_hint, ProtocolHint::Http2);
    assert_eq!(meta.identity.unwrap().as_bytes(), b"web.example.com");
    assert_eq!(meta.weight, 7);

    // A missing address drops the entry.
    let dropped = WeightedAddr {
        addr: None,
        weight: 1,
        metric_labels: Vec::new(),
        protocol_hint: None,
        tls_identity: None,
    };
    assert!(pb_to_addr_meta(dropped, &set).is_none());

    // An invalid identity is ignored, not fatal.
    let bad_id = WireTlsIdentity {
        strategy: Some(WireIdentityStrategy::DnsLikeIdentity(b"1.2.3.4".to_vec())),
    };
    assert!(pb_to_id(&bad_id).is_none());
}

fn authority(name: &str, port: u16) -> Authority {
    Authority { name: Name::try_from(name.as_bytes()).unwrap(), port }
}

#[test]
fn invalid_argument_terminates_subscription() {
    let mut r = Resolution::new(authority("svc.ns.cluster.local", 8080));
    assert!(r.next_update().is_none());
    let action = r.handle_event(RxEvent::Failed(RxError::InvalidArgument));
    assert_eq!(action, RxAction::Keep);
    assert!(!r.active);
    // The consumer observes NoEndpoints once and then pends forever: the
    // subscription is never reopened.
    assert!(matches!(r.next_update(), Some(Update::NoEndpoints)));
    assert!(r.next_update().is_none());
    assert!(r.next_update().is_none());
    assert!(!r.active);
}

#[test]
fn stream_end_and_transient_errors_reconnect() {
    let mut r = Resolution::new(authority("svc.ns.cluster.local", 8080));
    assert_eq!(r.handle_event(RxEvent::StreamEnd), RxAction::Reconnect);
    assert!(r.active);
    let transient = RxEvent::Failed(RxError::Other(String::from("unavailable")));
    assert_eq!(r.handle_event(transient), RxAction::Reconnect);
    assert!(r.active);
    assert_eq!(r.handle_event(RxEvent::Message(None)), RxAction::Keep);
}

#[test]
fn add_set_flattens_into_single_updates() {
    let mut r = Resolution::new(authority("svc.ns.cluster.local", 8080));
    let msg = WireUpdate::Add {
        addrs: vec![
            WeightedAddr {
                addr: Some(wire_v4(0x0a00_0001, 1000)),
                weight: 1,
                metric_labels: Vec::new(),
                protocol_hint: None,
                tls_identity: None,
            },
            WeightedAddr {
                addr: None,
                weight: 1,
                metric_labels: Vec::new(),
                protocol_hint: None,
                tls_identity: None,
            },
            WeightedAddr {
                addr: Some(wire_v4(0x0a00_0002, 1000)),
                weight: 2,
                metric_labels: Vec::new(),
                protocol_hint: None,
                tls_identity: None,
            },
        ],
        metric_labels: Vec::new(),
    };
    assert_eq!(r.handle_event(RxEvent::Message(Some(msg))), RxAction::Keep);
    assert!(matches!(r.next_update(), Some(Update::Add(a, _)) if a == v4(0x0a00_0001, 1000)));
    assert!(matches!(r.next_update(), Some(Update::Add(a, _)) if a == v4(0x0a00_0002, 1000)));
    assert!(r.next_update().is_none());
    let remove = WireUpdate::Remove { addrs: vec![wire_v4(0x0a00_0001, 1000)] };
    assert_eq!(r.handle_event(RxEvent::Message(Some(remove))), RxAction::Keep);
    assert!(matches!(r.next_update(), Some(Update::Remove(a)) if a == v4(0x0a00_0001, 1000)));
}

#[test]
fn destination_request_path() {
    let req = destination_request(&authority("Web.example.com", 8080), &b"token".to_vec());
    assert_eq!(req.scheme, b"k8s".to_vec());
    assert_eq!(req.path, b"web.example.com:8080".to_vec());
    assert_eq!(req.context_token, b"token".to_vec());
}

fn meta() -> Metadata {
    Metadata::new(Vec::new(), ProtocolHint::Unknown, None, 1)
}

#[test]
fn cancelled_build_is_silent() {
    let a = v4(0x0a00_0001, 9000);
    let mut d: Discover<(), ()> = Discover::new((), ());
    let id = match d.handle_update(Update::Add(a, meta())) {
        UpdateStep::StartBuild { id, addr, .. } => {
            assert_eq!(addr, a);
            id
        },
        _ => panic!("an Add must start a build"),
    };
    // The address is removed before its build completes: the removal is
    // emitted eagerly, and the build's later completion is silent — no
    // insertion for the address is ever observed.
    assert!(matches!(d.handle_update::<Metadata>(Update::Remove(a)), UpdateStep::EmitRemove(x) if x == a));
    assert_eq!(d.complete_build(id, false), BuildOutcome::Silent);
}

#[test]
fn completed_build_emits_insertion_and_clears_flag() {
    let a = v4(0x0a00_0001, 9000);
    let mut d: Discover<(), ()> = Discover::new((), ());
    let status = d.endpoint_status();
    let watcher = status.clone();
    assert!(!status.is_empty());
    assert!(matches!(d.handle_update::<Metadata>(Update::NoEndpoints), UpdateStep::Flagged));
    assert!(status.is_empty());
    assert!(watcher.is_empty());
    let id = match d.handle_update(Update::Add(a, meta())) {
        UpdateStep::StartBuild { id, .. } => id,
        _ => panic!("an Add must start a build"),
    };
    assert_eq!(d.complete_build(id, true), BuildOutcome::Fail);
    // The failed token is gone; settling it again changes nothing.
    assert_eq!(d.complete_build(id, false), BuildOutcome::Silent);
    let id2 = match d.handle_update(Update::Add(a, meta())) {
        UpdateStep::StartBuild { id, .. } => id,
        _ => panic!("an Add must start a build"),
    };
    assert_eq!(d.complete_build(id2, false), BuildOutcome::Emit(a));
    // Both clones of the status handle see the cleared flag.
    assert!(!status.is_empty());
    assert!(!watcher.is_empty());
}

#[test]
fn tap_authorization_rule() {
    let want = Name::try_from(b"tap.controller.example" as &[u8]).unwrap();
    let same = Name::try_from(b"Tap.Controller.Example" as &[u8]).unwrap();
    let other = Name::try_from(b"intruder.example" as &[u8]).unwrap();
    assert_eq!(authorize_tap(&None, &None), TapAccess::ServeAdmin);
    assert_eq!(authorize_tap(&None, &Some(other.clone())), TapAccess::ServeAdmin);
    assert_eq!(authorize_tap(&Some(want.clone()), &None), TapAccess::DropSilently);
    assert_eq!(authorize_tap(&Some(want.clone()), &Some(other)), TapAccess::ServeUnauthenticated);
    assert_eq!(authorize_tap(&Some(want), &Some(same)), TapAccess::ServeAdmin);
}
