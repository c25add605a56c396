use unf_encryption::address::{IpAddr, IpPrefix, SocketAddr};
use unf_encryption::kernel_provider::{WireGuardKernelError, WireGuardRouteScope, UNF_WIREGUARD_ROUTE_PROTOCOL};
use unf_encryption::netlink_readback::{
    decode_device, owned_proof_addresses, owned_routes, parse_allowed_ip, parse_link, parse_peer,
    validate_owned_link, AddressAttribute, AddressRecord, AllowedIpAttribute, AllowedIpFamily,
    DeviceAttribute, DeviceResponse, LinkAttribute, LinkRecord, PeerAttribute, RouteAttribute,
    RouteRecord, ROUTE_PROTOCOL_KERNEL, ROUTE_SCOPE_HOST, ROUTE_SCOPE_LINK, ROUTE_SCOPE_UNIVERSE,
    ROUTE_TYPE_LOCAL, ROUTE_TYPE_UNICAST,
};

fn v4(a: u8, b: u8, c: u8, d: u8) -> IpAddr {
    IpAddr::V4(u32::from_be_bytes([a, b, c, d]))
}

fn allowed(address: IpAddr, len: u8) -> Vec<AllowedIpAttribute> {
    let family = match address {
        IpAddr::V4(_) => AllowedIpFamily::Ipv4,
        IpAddr::V6(_) => AllowedIpFamily::Ipv6,
    };
    vec![
        AllowedIpAttribute::Family(family),
        AllowedIpAttribute::Address(address),
        AllowedIpAttribute::Cidr(len),
    ]
}

fn peer(key: u8, ips: Vec<Vec<AllowedIpAttribute>>) -> Vec<PeerAttribute> {
    vec![
        PeerAttribute::PublicKey([key; 32]),
        PeerAttribute::PresharedKey([0; 32]),
        PeerAttribute::Endpoint(SocketAddr { ip: v4(192, 0, 2, key), port: 51_820 }),
        PeerAttribute::PersistentKeepalive(25),
        PeerAttribute::LastHandshake(1_700_000_000),
        PeerAttribute::RxBytes(10),
        PeerAttribute::TxBytes(20),
        PeerAttribute::AllowedIps(ips),
        PeerAttribute::ProtocolVersion(1),
    ]
}

#[test]
fn allowed_ip_requires_matching_family_single_values_and_canonical_prefix() {
    let p = parse_allowed_ip(&allowed(v4(10, 1, 0, 0), 16)).unwrap();
    assert_eq!(p, IpPrefix { address: v4(10, 1, 0, 0), prefix_len: 16 });
    let mut wrong_family = allowed(v4(10, 1, 0, 0), 16);
    wrong_family[0] = AllowedIpAttribute::Family(AllowedIpFamily::Ipv6);
    assert!(matches!(parse_allowed_ip(&wrong_family), Err(WireGuardKernelError::ReadbackMismatch)));
    let mut repeated = allowed(v4(10, 1, 0, 0), 16);
    repeated.push(AllowedIpAttribute::Cidr(24));
    assert!(matches!(parse_allowed_ip(&repeated), Err(WireGuardKernelError::ReadbackMismatch)));
    let mut same_again = allowed(v4(10, 1, 0, 0), 16);
    same_again.push(AllowedIpAttribute::Cidr(16));
    assert!(parse_allowed_ip(&same_again).is_ok());
    let mut flagged = allowed(v4(10, 1, 0, 0), 16);
    flagged.push(AllowedIpAttribute::Flags);
    assert!(matches!(parse_allowed_ip(&flagged), Err(WireGuardKernelError::ReadbackMismatch)));
    assert!(matches!(
        parse_allowed_ip(&allowed(v4(10, 1, 0, 1), 16)),
        Err(WireGuardKernelError::ReadbackMismatch)
    ));
    assert!(matches!(
        parse_allowed_ip(&allowed(v4(10, 1, 0, 0), 16)[1..].to_vec()),
        Err(WireGuardKernelError::ReadbackMismatch)
    ));
}

#[test]
fn peer_readback_sorts_allowed_ips_and_rejects_preshared_keys() {
    let attrs = peer(7, vec![allowed(v4(10, 2, 0, 0), 16), allowed(v4(10, 1, 0, 0), 16)]);
    let p = parse_peer(&attrs).unwrap();
    assert_eq!(p.public_key.0, [7; 32]);
    assert_eq!(p.persistent_keepalive_seconds, 25);
    assert_eq!(p.last_handshake_unix_seconds, 1_700_000_000);
    assert_eq!(p.received_bytes, 10);
    assert_eq!(p.transmitted_bytes, 20);
    assert_eq!(
        p.allowed_ips,
        vec![
            IpPrefix { address: v4(10, 1, 0, 0), prefix_len: 16 },
            IpPrefix { address: v4(10, 2, 0, 0), prefix_len: 16 },
        ]
    );

    let mut preshared = attrs.clone();
    preshared[1] = PeerAttribute::PresharedKey([1; 32]);
    match parse_peer(&preshared) {
        Err(WireGuardKernelError::ForeignState(message)) => assert_eq!(message, "unexpected preshared key"),
        _ => panic!("a preshared key must be refused"),
    }
    let no_endpoint: Vec<PeerAttribute> = attrs
        .iter()
        .filter(|a| !matches!(a, PeerAttribute::Endpoint(_)))
        .cloned()
        .collect();
    assert!(matches!(parse_peer(&no_endpoint), Err(WireGuardKernelError::ReadbackMismatch)));
    let mut newer = attrs.clone();
    newer.push(PeerAttribute::ProtocolVersion(2));
    assert!(matches!(parse_peer(&newer), Err(WireGuardKernelError::ReadbackMismatch)));
    let mut other_key = attrs.clone();
    other_key.push(PeerAttribute::PublicKey([8; 32]));
    assert!(matches!(parse_peer(&other_key), Err(WireGuardKernelError::ReadbackMismatch)));
}

fn device_attributes() -> Vec<DeviceAttribute> {
    vec![
        DeviceAttribute::IfName("unfwg0".to_owned()),
        DeviceAttribute::IfIndex(9),
        DeviceAttribute::PrivateKey,
        DeviceAttribute::PublicKey([3; 32]),
        DeviceAttribute::ListenPort(51_820),
        DeviceAttribute::Fwmark(0x554e),
        DeviceAttribute::Peers(vec![
            peer(9, vec![allowed(v4(10, 9, 0, 0), 16)]),
            peer(5, vec![allowed(v4(10, 5, 0, 0), 16)]),
        ]),
    ]
}

#[test]
fn device_readback_orders_peers_and_requires_every_identity_field() {
    let d = decode_device(&vec![DeviceResponse::Attributes(device_attributes()), DeviceResponse::Other]).unwrap();
    assert_eq!(d.interface_name, "unfwg0");
    assert_eq!(d.interface_index, 9);
    assert_eq!(d.public_key.0, [3; 32]);
    assert_eq!(d.listen_port, 51_820);
    assert_eq!(d.fwmark, 0x554e);
    assert_eq!(d.peers.len(), 2);
    assert_eq!(d.peers[0].public_key.0, [5; 32]);
    assert_eq!(d.peers[1].public_key.0, [9; 32]);

    let split = vec![
        DeviceResponse::Attributes(device_attributes()[..3].to_vec()),
        DeviceResponse::Attributes(device_attributes()[3..].to_vec()),
    ];
    assert_eq!(decode_device(&split).unwrap().peers.len(), 2);

    let mut no_mark = device_attributes();
    no_mark.remove(5);
    assert!(matches!(
        decode_device(&vec![DeviceResponse::Attributes(no_mark)]),
        Err(WireGuardKernelError::ReadbackMismatch)
    ));
    let mut flagged = device_attributes();
    flagged.push(DeviceAttribute::Flags);
    assert!(matches!(
        decode_device(&vec![DeviceResponse::Attributes(flagged)]),
        Err(WireGuardKernelError::ReadbackMismatch)
    ));
    match decode_device(&vec![
        DeviceResponse::Attributes(device_attributes()),
        DeviceResponse::KernelError("No such device".to_owned()),
    ]) {
        Err(WireGuardKernelError::Kernel { operation, message }) => {
            assert_eq!(operation, "get WireGuard device");
            assert_eq!(message, "No such device");
        }
        _ => panic!("a kernel error must be reported"),
    }
}

fn link(attributes: Vec<LinkAttribute>) -> LinkRecord {
    LinkRecord { index: 9, is_up: true, attributes }
}

#[test]
fn owned_link_must_be_wireguard_with_the_exact_alias() {
    let good = link(vec![
        LinkAttribute::IfName,
        LinkAttribute::IfAlias("unf:encryption:v2:c:n:7".to_owned()),
        LinkAttribute::Mtu(1_420),
        LinkAttribute::Kind(true),
    ]);
    let parsed = parse_link(&good).unwrap();
    assert_eq!(parsed.owner_alias, "unf:encryption:v2:c:n:7");
    assert_eq!(parsed.mtu, 1_420);
    assert!(parsed.is_up);
    assert!(validate_owned_link(&good, "unf:encryption:v2:c:n:7").is_ok());
    match validate_owned_link(&good, "unf:encryption:v2:c:n:8") {
        Err(WireGuardKernelError::ForeignState(m)) => {
            assert_eq!(m, "same-name WireGuard link has another ownership alias")
        }
        _ => panic!("a foreign alias must be refused"),
    }
    let bridge = link(vec![LinkAttribute::IfName, LinkAttribute::Kind(false), LinkAttribute::Mtu(1_500)]);
    match parse_link(&bridge) {
        Err(WireGuardKernelError::ForeignState(m)) => assert_eq!(m, "same-name link is not WireGuard"),
        _ => panic!("a non-WireGuard link must be refused"),
    }
    let unclaimed = link(vec![LinkAttribute::IfName, LinkAttribute::Kind(true), LinkAttribute::Mtu(1_500)]);
    match parse_link(&unclaimed) {
        Err(WireGuardKernelError::ForeignState(m)) => assert_eq!(m, "WireGuard link has no ownership alias"),
        _ => panic!("an unclaimed link must be refused"),
    }
    let no_mtu = link(vec![
        LinkAttribute::IfName,
        LinkAttribute::IfAlias("unf:encryption:v2:c:n:7".to_owned()),
        LinkAttribute::Kind(true),
    ]);
    assert!(matches!(parse_link(&no_mtu), Err(WireGuardKernelError::ReadbackMismatch)));
}

fn route(prefix: IpPrefix, table: u32, oif: u32, protocol: u8, scope: u8, kind: u8) -> RouteRecord {
    RouteRecord {
        attributes: vec![
            RouteAttribute::Table(table),
            RouteAttribute::Destination(prefix.address),
            RouteAttribute::Oif(oif),
        ],
        destination_prefix_length: prefix.prefix_len,
        header_table: 0,
        protocol,
        scope,
        kind,
    }
}

#[test]
fn owned_routes_are_exact_and_nothing_else_points_at_the_interface() {
    let p = IpPrefix { address: v4(10, 9, 0, 0), prefix_len: 16 };
    let beacon = IpPrefix { address: v4(10, 7, 0, 1), prefix_len: 32 };
    let owned = route(p, 100, 9, UNF_WIREGUARD_ROUTE_PROTOCOL, ROUTE_SCOPE_LINK, ROUTE_TYPE_UNICAST);
    let local_beacon = route(beacon, 255, 9, ROUTE_PROTOCOL_KERNEL, ROUTE_SCOPE_HOST, ROUTE_TYPE_LOCAL);
    let multicast = route(
        IpPrefix { address: IpAddr::V6(0xff00u128 << 112), prefix_len: 8 },
        255,
        9,
        ROUTE_PROTOCOL_KERNEL,
        ROUTE_SCOPE_UNIVERSE,
        ROUTE_TYPE_UNICAST,
    );
    let messages = vec![owned.clone(), local_beacon.clone(), multicast.clone()];
    let routes = owned_routes(&messages, &vec![p], 100, 9, true, &vec![beacon]).unwrap();
    assert_eq!(routes.len(), 1);
    assert_eq!(routes[0].prefix, p);
    assert_eq!(routes[0].table, 100);
    assert_eq!(routes[0].interface_index, 9);
    assert_eq!(routes[0].protocol, UNF_WIREGUARD_ROUTE_PROTOCOL);
    assert_eq!(routes[0].scope, WireGuardRouteScope::Link);

    assert!(matches!(
        owned_routes(&vec![], &vec![p], 100, 9, true, &vec![beacon]),
        Err(WireGuardKernelError::ReadbackMismatch)
    ));
    assert!(owned_routes(&vec![], &vec![p], 100, 0, false, &vec![]).unwrap().is_empty());
    match owned_routes(&vec![owned.clone(), owned.clone()], &vec![p], 100, 9, true, &vec![]) {
        Err(WireGuardKernelError::ForeignState(m)) => assert_eq!(m, "route key is not exactly UNF-owned"),
        _ => panic!("a duplicate route key must be refused"),
    }
    let stray = route(
        IpPrefix { address: v4(172, 16, 0, 0), prefix_len: 12 },
        100,
        9,
        UNF_WIREGUARD_ROUTE_PROTOCOL,
        ROUTE_SCOPE_LINK,
        ROUTE_TYPE_UNICAST,
    );
    match owned_routes(&vec![owned, stray], &vec![p], 100, 9, true, &vec![]) {
        Err(WireGuardKernelError::ForeignState(m)) => {
            assert_eq!(m, "unexpected route points at the owned WireGuard interface")
        }
        _ => panic!("a stray route must be refused"),
    }
}

#[test]
fn proof_addresses_must_match_exactly_and_stay_bounded() {
    let a = IpPrefix { address: v4(10, 7, 0, 1), prefix_len: 32 };
    let b = IpPrefix { address: v4(10, 8, 0, 1), prefix_len: 32 };
    let record = |p: IpPrefix| AddressRecord {
        prefix_len: p.prefix_len,
        attributes: vec![AddressAttribute::Other, AddressAttribute::Local(p.address)],
    };
    let found = owned_proof_addresses(&vec![record(b), record(a), record(a)], &vec![a, b]).unwrap();
    assert_eq!(found, vec![a, b]);
    match owned_proof_addresses(&vec![record(a)], &vec![a, b]) {
        Err(WireGuardKernelError::ForeignState(m)) => {
            assert_eq!(m, "owned WireGuard interface has unexpected proof addresses")
        }
        _ => panic!("a missing proof address must be refused"),
    }
    let many: Vec<AddressRecord> = (0..257u32)
        .map(|i| AddressRecord {
            prefix_len: 32,
            attributes: vec![AddressAttribute::Address(IpAddr::V4(0x0a00_0000 + i))],
        })
        .collect();
    assert!(matches!(
        owned_proof_addresses(&many, &vec![a]),
        Err(WireGuardKernelError::CapacityExceeded)
    ));
}
