use unf_encryption::address::{IpAddr, IpPrefix, SocketAddr};
use unf_encryption::kernel_provider::{
    required_capabilities, valid_endpoint, valid_interface_name, UnderlayAddressFamily,
    UnderlayMtuObservation, WireGuardKernelCapability, WireGuardKernelError, WireGuardMtuEnvelope,
    WireGuardProviderCapabilities, WireGuardRouteScope, WIREGUARD_IPV6_OVERHEAD,
    WIREGUARD_KERNEL_PROVIDER_SCHEMA_VERSION,
};

fn observation(peer: &str, family: UnderlayAddressFamily, underlay_mtu: u32) -> UnderlayMtuObservation {
    UnderlayMtuObservation {
        peer_node_uid: peer.to_owned(),
        family,
        underlay_mtu,
    }
}

#[test]
fn mtu_envelope_is_dual_stack_safe_and_names_its_limiter() {
    let envelope = WireGuardMtuEnvelope::derive(&vec![
        observation("node-c", UnderlayAddressFamily::Ipv4, 9_000),
        observation("node-b", UnderlayAddressFamily::Ipv6, 1_500),
    ])
    .unwrap();
    assert_eq!(envelope.interface_mtu, 1_420);
    assert_eq!(envelope.limiting_peer_node_uid, "node-b");
    assert_eq!(envelope.encapsulation_overhead, WIREGUARD_IPV6_OVERHEAD);
    envelope.verify().unwrap();
}

#[test]
fn mtu_envelope_rejects_duplicates_underflow_and_ipv6_unsafe_results() {
    let duplicate = observation("node-b", UnderlayAddressFamily::Ipv6, 1_500);
    assert!(WireGuardMtuEnvelope::derive(&vec![duplicate.clone(), duplicate]).is_err());
    assert!(WireGuardMtuEnvelope::derive(&vec![observation(
        "node-b",
        UnderlayAddressFamily::Ipv6,
        1_300
    )])
    .is_err());
    let mut malformed = WireGuardMtuEnvelope::derive(&vec![observation(
        "node-b",
        UnderlayAddressFamily::Ipv6,
        1_500,
    )])
    .unwrap();
    malformed.encapsulation_overhead = 60;
    assert!(matches!(
        malformed.verify(),
        Err(WireGuardKernelError::InvalidMtuEnvelope)
    ));
}

#[test]
fn capability_negotiation_selects_overlap_and_never_drops_requirements() {
    let local = WireGuardProviderCapabilities::current();
    let mut adjacent = local.clone();
    adjacent.minimum_schema = 2;
    adjacent.maximum_peers = 2_048;
    let negotiated = local.negotiate(&adjacent).unwrap();
    assert_eq!(negotiated.schema_version, WIREGUARD_KERNEL_PROVIDER_SCHEMA_VERSION);
    assert_eq!(negotiated.maximum_peers, 2_048);
    adjacent
        .capabilities
        .retain(|capability| *capability != WireGuardKernelCapability::ExactAllowedIpReadback);
    assert!(matches!(
        local.negotiate(&adjacent),
        Err(WireGuardKernelError::MissingProviderCapability)
    ));
}

#[test]
fn current_provider_offers_every_required_capability() {
    let current = WireGuardProviderCapabilities::current();
    current.validate().unwrap();
    assert_eq!(current.capabilities, required_capabilities());
}

#[test]
fn interface_names_and_endpoints_are_bounded() {
    assert!(valid_interface_name("unfwg000000007"));
    assert!(!valid_interface_name("unfwg0000000000007"));
    assert!(!valid_interface_name("eth0"));
    let endpoint = SocketAddr {
        ip: IpAddr::V4(u32::from_be_bytes([192, 0, 2, 20])),
        port: 51_820,
    };
    assert!(valid_endpoint(endpoint));
    assert!(!valid_endpoint(SocketAddr { port: 0, ..endpoint }));
}

#[test]
fn route_scope_follows_the_address_family() {
    let v4 = IpPrefix {
        address: IpAddr::V4(u32::from_be_bytes([10, 244, 1, 0])),
        prefix_len: 24,
    };
    let v6 = IpPrefix {
        address: IpAddr::V6(0xfd00_0244_0001_u128 << 80),
        prefix_len: 64,
    };
    assert_eq!(WireGuardRouteScope::for_prefix(v4), WireGuardRouteScope::Link);
    assert_ne!(WireGuardRouteScope::for_prefix(v6), WireGuardRouteScope::Link);
}
