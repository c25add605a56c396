use unf_encryption::address::{IpAddr, IpPrefix, SocketAddr};
use unf_encryption::kernel_provider::{WireGuardKernelError, WireGuardRouteScope, UNF_WIREGUARD_ROUTE_PROTOCOL};
use unf_encryption::kernel_snapshot::{WireGuardKernelSnapshot, WireGuardKernelSnapshotInput};
use unf_encryption::keys::WireGuardPublicKey;
use unf_encryption::netlink_readback::{WireGuardPeerReadback, WireGuardRouteReadback};

fn prefix(a: u8, b: u8, len: u8) -> IpPrefix {
    IpPrefix { address: IpAddr::V4(u32::from_be_bytes([10, a, b, 0])), prefix_len: len }
}

fn peer(key: u8, ips: Vec<IpPrefix>) -> WireGuardPeerReadback {
    WireGuardPeerReadback {
        public_key: WireGuardPublicKey([key; 32]),
        endpoint: SocketAddr { ip: IpAddr::V4(u32::from_be_bytes([192, 0, 2, key])), port: 51_820 },
        persistent_keepalive_seconds: 25,
        allowed_ips: ips,
        last_handshake_unix_seconds: 1_700_000_000,
        received_bytes: 11,
        transmitted_bytes: 22,
    }
}

fn owned(p: IpPrefix) -> WireGuardRouteReadback {
    WireGuardRouteReadback {
        prefix: p,
        interface_index: 9,
        table: 100,
        protocol: UNF_WIREGUARD_ROUTE_PROTOCOL,
        scope: WireGuardRouteScope::Link,
    }
}

fn input() -> WireGuardKernelSnapshotInput {
    WireGuardKernelSnapshotInput {
        interface_name: "unfwg0".to_owned(),
        interface_index: 9,
        owner_alias: "unf:encryption:v2:cluster-a:node-a:7".to_owned(),
        is_up: true,
        mtu: 1_420,
        public_key: WireGuardPublicKey([3; 32]),
        listen_port: 51_820,
        fwmark: 0x554e,
        proof_addresses: vec![
            IpPrefix { address: IpAddr::V4(u32::from_be_bytes([10, 1, 0, 1])), prefix_len: 32 },
        ],
        peers: vec![
            peer(9, vec![prefix(9, 1, 24), prefix(9, 0, 24)]),
            peer(5, vec![prefix(5, 0, 24)]),
        ],
        routes: vec![owned(prefix(9, 1, 24)), owned(prefix(5, 0, 24)), owned(prefix(9, 0, 24))],
    }
}

#[test]
fn sealed_readback_is_canonical_and_verifies() {
    let s = WireGuardKernelSnapshot::issue(input());
    assert_eq!(s.schema_version, 3);
    assert_eq!(s.peers[0].public_key.0, [5; 32]);
    assert_eq!(s.peers[1].allowed_ips, vec![prefix(9, 0, 24), prefix(9, 1, 24)]);
    assert_eq!(s.routes[0].prefix, prefix(5, 0, 24));
    assert_eq!(s.routes[2].prefix, prefix(9, 1, 24));
    assert!(s.verify_integrity().is_ok());
    assert_eq!(s.configuration_digest.0, s.calculate_configuration_digest().0);
    assert_eq!(s.observation_digest.0, s.calculate_observation_digest().0);
}

#[test]
fn counters_change_only_the_observation_digest() {
    let first = WireGuardKernelSnapshot::issue(input());
    let mut changed = input();
    changed.peers[0].received_bytes = 999;
    changed.peers[0].last_handshake_unix_seconds = 1_700_000_100;
    let second = WireGuardKernelSnapshot::issue(changed);
    assert_eq!(first.configuration_digest.0, second.configuration_digest.0);
    assert_ne!(first.observation_digest.0, second.observation_digest.0);
    let mut rerouted = input();
    rerouted.peers[1].persistent_keepalive_seconds = 30;
    let third = WireGuardKernelSnapshot::issue(rerouted);
    assert_ne!(first.configuration_digest.0, third.configuration_digest.0);
}

#[test]
fn tampered_or_malformed_readback_is_refused() {
    let mut s = WireGuardKernelSnapshot::issue(input());
    s.mtu = 1_400;
    assert!(matches!(s.verify_integrity(), Err(WireGuardKernelError::ReadbackMismatch)));

    let mut down = input();
    down.is_up = false;
    assert!(WireGuardKernelSnapshot::issue(down).verify_integrity().is_err());

    let mut foreign_alias = input();
    foreign_alias.owner_alias = "someone-else".to_owned();
    assert!(WireGuardKernelSnapshot::issue(foreign_alias).verify_integrity().is_err());

    let mut shared = input();
    shared.peers[1].allowed_ips = vec![prefix(9, 0, 24)];
    assert!(WireGuardKernelSnapshot::issue(shared).verify_integrity().is_err());

    let mut unrouted = input();
    unrouted.routes.push(owned(prefix(7, 0, 24)));
    assert!(WireGuardKernelSnapshot::issue(unrouted).verify_integrity().is_err());

    let mut twice = input();
    twice.peers.push(peer(5, vec![prefix(6, 0, 24)]));
    assert!(WireGuardKernelSnapshot::issue(twice).verify_integrity().is_err());
}
