use discovery::cache::{Cache, Update};
use discovery::dns::{classify_lookup, first_ip, Error, LookupOutcome, Response};
use discovery::net::{
    pb_to_sock_addr, IpAddrRepr, Ipv6Pair, SockAddr, TcpAddress, WireIp, WireIpAddress,
};

fn v4(octets: u32, port: u16) -> SockAddr {
    SockAddr { ip: IpAddrRepr::V4(octets), port }
}

#[test]
fn ipv6_wire_decode() {
    // [2001:db8::1]:443 carried as two big-endian 64-bit halves.
    let pb = TcpAddress {
        ip: Some(WireIpAddress {
            ip: Some(WireIp::V6(Ipv6Pair { first: 0x2001_0db8_0000_0000, last: 0x0000_0000_0000_0001 })),
        }),
        port: 443,
    };
    let sa = pb_to_sock_addr(&pb).unwrap();
    assert_eq!(sa.ip, IpAddrRepr::V6(0x2001_0db8_0000_0000_0000_0000_0000_0001));
    assert_eq!(sa.port, 443);
}

#[test]
fn wire_decode_drops_missing_ip_and_truncates_port() {
    assert_eq!(pb_to_sock_addr(&TcpAddress { ip: None, port: 80 }), None);
    assert_eq!(pb_to_sock_addr(&TcpAddress { ip: Some(WireIpAddress { ip: None }), port: 80 }), None);
    let pb = TcpAddress {
        ip: Some(WireIpAddress { ip: Some(WireIp::V4(0x0a00_0001)) }),
        port: 0x0001_01bb,
    };
    // Excess port bits are narrowed away: 0x101bb becomes 0x1bb = 443.
    assert_eq!(pb_to_sock_addr(&pb), Some(v4(0x0a00_0001, 443)));
    let max = TcpAddress {
        ip: Some(WireIpAddress { ip: Some(WireIp::V4(0)) }),
        port: u32::MAX,
    };
    assert_eq!(pb_to_sock_addr(&max), Some(v4(0, u16::MAX)));
}

#[test]
fn no_endpoints_expansion() {
    // Feed one Add set, drain the two Adds, then a NoEndpoints signal; the
    // consumer sees the checkpoint and one Remove per live address, in
    // insertion order.
    let a1 = v4(0x0a00_0001, 8080);
    let a2 = v4(0x0a00_0002, 8080);
    let mut cache: Cache<u32> = Cache::new();
    cache.add(vec![(a1, 1), (a2, 2)]);
    assert!(matches!(cache.next_update(), Some(Update::Add(a, 1)) if a == a1));
    assert!(matches!(cache.next_update(), Some(Update::Add(a, 2)) if a == a2));
    cache.no_endpoints();
    assert!(matches!(cache.next_update(), Some(Update::NoEndpoints)));
    assert!(matches!(cache.next_update(), Some(Update::Remove(a)) if a == a1));
    assert!(matches!(cache.next_update(), Some(Update::Remove(a)) if a == a2));
    assert!(cache.next_update().is_none());
    assert!(cache.live_snapshot().is_empty());
}

#[test]
fn live_set_tracks_adds_minus_removes() {
    let a1 = v4(1, 1);
    let a2 = v4(2, 2);
    let a3 = v4(3, 3);
    let mut cache: Cache<u32> = Cache::new();
    cache.add(vec![(a1, 0), (a2, 0)]);
    cache.add(vec![(a1, 0)]);
    cache.remove(vec![a2]);
    cache.add(vec![(a3, 0)]);
    // a1 added twice counts once; a2 was removed; order of insertion is kept.
    assert_eq!(cache.live_snapshot(), vec![a1, a3]);
    // Draining observes exactly the appended updates, in order.
    let mut seen: Vec<Update<u32>> = Vec::new();
    while let Some(u) = cache.next_update() {
        seen.push(u);
    }
    assert_eq!(seen.len(), 5);
    assert!(matches!(seen[0], Update::Add(a, _) if a == a1));
    assert!(matches!(seen[1], Update::Add(a, _) if a == a2));
    assert!(matches!(seen[2], Update::Add(a, _) if a == a1));
    assert!(matches!(seen[3], Update::Remove(a) if a == a2));
    assert!(matches!(seen[4], Update::Add(a, _) if a == a3));
    // With the queue drained, the live set equals Adds minus Removes.
    assert_eq!(cache.live_snapshot(), vec![a1, a3]);
}

#[test]
fn ipv6_halves_round_trip() {
    let ip: u128 = 0x2001_0db8_85a3_0000_0000_8a2e_0370_7334;
    let halves = discovery::net::ipv6_to_halves(ip);
    assert_eq!(halves.first, 0x2001_0db8_85a3_0000);
    assert_eq!(halves.last, 0x0000_8a2e_0370_7334);
    assert_eq!(discovery::net::ipv6_from_halves(halves.first, halves.last), ip);
    let all_ones = discovery::net::ipv6_to_halves(u128::MAX);
    assert_eq!((all_ones.first, all_ones.last), (u64::MAX, u64::MAX));
    assert_eq!(discovery::net::ipv6_from_halves(u64::MAX, u64::MAX), u128::MAX);
}

#[test]
fn lookup_outcomes_classify() {
    match classify_lookup(LookupOutcome::NoRecords { valid_until: Some(500) }) {
        Ok(Response::DoesNotExist { retry_after }) => assert_eq!(retry_after, Some(500)),
        _ => panic!("a no-records answer is a negative response, not an error"),
    }
    match classify_lookup(LookupOutcome::Failed(String::from("timeout"))) {
        Err(Error::ResolutionFailed(why)) => assert_eq!(why, "timeout"),
        _ => panic!("other failures propagate"),
    }
    match first_ip(LookupOutcome::Found { ips: vec![], valid_until: 1 }) {
        Err(Error::NoAddressesFound) => (),
        _ => panic!("an empty list has no first address"),
    }
    match first_ip(LookupOutcome::Found {
        ips: vec![IpAddrRepr::V4(7), IpAddrRepr::V4(8)],
        valid_until: 1,
    }) {
        Ok(ip) => assert_eq!(ip, IpAddrRepr::V4(7)),
        _ => panic!("the first address is returned"),
    }
}
