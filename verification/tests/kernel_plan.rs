use unf_encryption::address::{IpAddr, IpPrefix, SocketAddr};
use unf_encryption::ids::Revision;
use unf_encryption::kernel_plan::{
    derive_wireguard_proof_addresses, KernelRecoveryAction, KernelTransactionPhase, ProofBeacon,
    ProofCarryingKernelTransaction, WireGuardEpochActivation, WireGuardKernelPlan, WireGuardKernelPlanInput,
    WireGuardPeerPlan,
};
use unf_encryption::kernel_provider::{
    UnderlayAddressFamily, UnderlayMtuObservation, WireGuardKernelError, WireGuardMtuEnvelope, WireGuardRouteScope,
    UNF_WIREGUARD_ROUTE_PROTOCOL,
};
use unf_encryption::kernel_snapshot::{WireGuardKernelSnapshot, WireGuardKernelSnapshotInput};
use unf_encryption::keys::WireGuardPublicKey;
use unf_encryption::netlink_readback::{WireGuardPeerReadback, WireGuardRouteReadback};

fn v4(a: u8, b: u8, c: u8, d: u8) -> IpAddr {
    IpAddr::V4(u32::from_be_bytes([a, b, c, d]))
}

fn prefix(a: u8, b: u8, c: u8, d: u8, len: u8) -> IpPrefix {
    IpPrefix { address: v4(a, b, c, d), prefix_len: len }
}

fn envelope(uids: &[&str]) -> WireGuardMtuEnvelope {
    let observations = uids
        .iter()
        .map(|uid| UnderlayMtuObservation {
            peer_node_uid: (*uid).to_owned(),
            family: UnderlayAddressFamily::Ipv4,
            underlay_mtu: 1500,
        })
        .collect::<Vec<_>>();
    WireGuardMtuEnvelope::derive(&observations).expect("envelope")
}

fn peer(uid: &str, key: u8, allowed: Vec<IpPrefix>) -> WireGuardPeerPlan {
    WireGuardPeerPlan {
        node_uid: uid.to_owned(),
        public_key: WireGuardPublicKey([key; 32]),
        endpoint: SocketAddr { ip: v4(192, 0, 2, key), port: 51_820 },
        persistent_keepalive_seconds: 25,
        allowed_ips: allowed,
    }
}

fn beacons() -> Vec<ProofBeacon> {
    vec![ProofBeacon { block: prefix(10, 0, 1, 0, 24), beacon: v4(10, 0, 1, 1) }]
}

fn input() -> WireGuardKernelPlanInput {
    WireGuardKernelPlanInput {
        cluster_id: "cluster-a".to_owned(),
        local_node_uid: "node-uid-a".to_owned(),
        epoch: 7,
        revision: Revision(1),
        interface_name: "unfwg0".to_owned(),
        local_public_key: WireGuardPublicKey([1; 32]),
        listen_port: 51_820,
        fwmark: 0x10,
        route_table: 100,
        mtu_envelope: envelope(&["node-uid-b", "node-uid-c"]),
        local_pod_cidrs: vec![prefix(10, 0, 1, 0, 24)],
        activation: WireGuardEpochActivation::Active,
        peers: vec![
            peer("node-uid-c", 3, vec![prefix(10, 0, 3, 0, 24)]),
            peer("node-uid-b", 2, vec![prefix(10, 0, 2, 128, 25), prefix(10, 0, 2, 0, 25)]),
        ],
    }
}

#[test]
fn plan_is_canonical_named_and_sealed() {
    let plan = WireGuardKernelPlan::new(input(), &beacons()).expect("valid plan");
    assert_eq!(plan.owner_alias, "unf:encryption:v2:cluster-a:node-uid-a:7");
    assert_eq!(plan.proof_addresses, vec![prefix(10, 0, 1, 1, 32)]);
    assert_eq!(plan.peers[0].node_uid, "node-uid-b");
    assert_eq!(plan.peers[0].allowed_ips, vec![prefix(10, 0, 2, 0, 25), prefix(10, 0, 2, 128, 25)]);
    assert!(plan.verify(&beacons()).is_ok());
    assert_eq!(
        plan.route_prefixes(),
        vec![prefix(10, 0, 2, 0, 25), prefix(10, 0, 2, 128, 25), prefix(10, 0, 3, 0, 24)]
    );
    let mut tampered = plan.clone();
    tampered.fwmark = 0x11;
    assert!(matches!(tampered.verify(&beacons()), Err(WireGuardKernelError::PlanDigestMismatch)));
    let mut alias = plan.clone();
    alias.owner_alias = "unf:encryption:v2:cluster-a:node-uid-a:8".to_owned();
    alias.plan_digest = alias.calculate_digest();
    assert!(matches!(alias.verify(&beacons()), Err(WireGuardKernelError::InvalidPlan)));
}

#[test]
fn plan_refuses_missing_beacon_ambiguous_prefixes_and_unmeasured_peers() {
    assert!(matches!(WireGuardKernelPlan::new(input(), &Vec::new()), Err(WireGuardKernelError::InvalidPlan)));
    let mut overlapping = input();
    overlapping.peers[0].allowed_ips = vec![prefix(10, 0, 2, 0, 24)];
    assert!(matches!(
        WireGuardKernelPlan::new(overlapping, &beacons()),
        Err(WireGuardKernelError::AmbiguousAllowedIp)
    ));
    let mut unmeasured = input();
    unmeasured.mtu_envelope = envelope(&["node-uid-b"]);
    assert!(matches!(
        WireGuardKernelPlan::new(unmeasured, &beacons()),
        Err(WireGuardKernelError::InvalidMtuEnvelope)
    ));
    let mut self_peer = input();
    self_peer.peers[0].node_uid = "node-uid-a".to_owned();
    assert!(WireGuardKernelPlan::new(self_peer, &beacons()).is_err());
    let mut schema = WireGuardKernelPlan::new(input(), &beacons()).unwrap();
    schema.schema_version = 2;
    assert!(matches!(schema.verify(&beacons()), Err(WireGuardKernelError::UnsupportedProviderSchema(2))));
}

#[test]
fn proof_addresses_come_one_per_block_in_order() {
    let blocks = vec![prefix(10, 0, 9, 0, 24), prefix(10, 0, 1, 0, 24)];
    let beacons = vec![
        ProofBeacon { block: prefix(10, 0, 1, 0, 24), beacon: v4(10, 0, 1, 1) },
        ProofBeacon { block: prefix(10, 0, 9, 0, 24), beacon: v4(10, 0, 9, 1) },
    ];
    assert_eq!(
        derive_wireguard_proof_addresses(&blocks, &beacons).unwrap(),
        vec![prefix(10, 0, 1, 1, 32), prefix(10, 0, 9, 1, 32)]
    );
    let overlapping = vec![prefix(10, 0, 0, 0, 16), prefix(10, 0, 1, 0, 24)];
    assert!(derive_wireguard_proof_addresses(&overlapping, &beacons).is_err());
    let same = vec![
        ProofBeacon { block: prefix(10, 0, 1, 0, 24), beacon: v4(10, 0, 1, 1) },
        ProofBeacon { block: prefix(10, 0, 9, 0, 24), beacon: v4(10, 0, 1, 1) },
    ];
    assert!(derive_wireguard_proof_addresses(&blocks, &same).is_err());
    assert!(derive_wireguard_proof_addresses(&Vec::new(), &beacons).is_err());
}

fn readback(plan: &WireGuardKernelPlan) -> WireGuardKernelSnapshot {
    let peers = plan
        .peers
        .iter()
        .map(|p| WireGuardPeerReadback {
            public_key: p.public_key,
            endpoint: p.endpoint,
            persistent_keepalive_seconds: p.persistent_keepalive_seconds,
            allowed_ips: p.allowed_ips.clone(),
            last_handshake_unix_seconds: 0,
            received_bytes: 0,
            transmitted_bytes: 0,
        })
        .collect();
    let routes = plan
        .route_prefixes()
        .into_iter()
        .map(|prefix| WireGuardRouteReadback {
            prefix,
            interface_index: 9,
            table: plan.route_table,
            protocol: UNF_WIREGUARD_ROUTE_PROTOCOL,
            scope: WireGuardRouteScope::Link,
        })
        .collect();
    WireGuardKernelSnapshot::issue(WireGuardKernelSnapshotInput {
        interface_name: plan.interface_name.clone(),
        interface_index: 9,
        owner_alias: plan.owner_alias.clone(),
        is_up: true,
        mtu: plan.mtu_envelope.interface_mtu,
        public_key: plan.local_public_key,
        listen_port: plan.listen_port,
        fwmark: plan.fwmark,
        proof_addresses: plan.proof_addresses.clone(),
        peers,
        routes,
    })
}

#[test]
fn readback_verifies_only_against_its_exact_plan() {
    let plan = WireGuardKernelPlan::new(input(), &beacons()).unwrap();
    let snapshot = readback(&plan);
    assert!(snapshot.verify_against(&plan, &beacons()).is_ok());
    let mut other = input();
    other.listen_port = 51_821;
    let other = WireGuardKernelPlan::new(other, &beacons()).unwrap();
    assert!(matches!(snapshot.verify_against(&other, &beacons()), Err(WireGuardKernelError::ReadbackMismatch)));
    let mut fewer = input();
    fewer.peers.pop();
    fewer.mtu_envelope = envelope(&["node-uid-c"]);
    let fewer = WireGuardKernelPlan::new(fewer, &beacons()).unwrap();
    assert!(matches!(snapshot.verify_against(&fewer, &beacons()), Err(WireGuardKernelError::ReadbackMismatch)));
}

#[test]
fn kernel_transaction_commits_exact_readback_and_recovers_deterministically() {
    let plan = WireGuardKernelPlan::new(input(), &beacons()).unwrap();
    let snapshot = readback(&plan);
    assert!(matches!(
        ProofCarryingKernelTransaction::begin(Revision(0), plan.clone(), None, &beacons()),
        Err(WireGuardKernelError::InvalidTransaction)
    ));
    let mut tx = ProofCarryingKernelTransaction::begin(Revision(1), plan.clone(), None, &beacons()).unwrap();
    assert_eq!(tx.phase, KernelTransactionPhase::Prepared);
    assert!(tx.verify(&beacons()).is_ok());
    assert_eq!(tx.recover(None, &beacons()).unwrap(), KernelRecoveryAction::ApplyDesired);
    assert_eq!(tx.recover(Some(&snapshot), &beacons()).unwrap(), KernelRecoveryAction::CommitObservedDesired);
    tx.commit(&snapshot, &beacons()).unwrap();
    assert_eq!(tx.phase, KernelTransactionPhase::Committed);
    assert!(tx.verify(&beacons()).is_ok());
    assert_eq!(tx.recover(Some(&snapshot), &beacons()).unwrap(), KernelRecoveryAction::CommitObservedDesired);
    assert_eq!(tx.recover(None, &beacons()).unwrap(), KernelRecoveryAction::RefuseUnknownState);
    assert!(matches!(tx.record_rollback(true, &beacons()), Err(WireGuardKernelError::InvalidTransaction)));
    assert!(matches!(tx.commit(&snapshot, &beacons()), Err(WireGuardKernelError::InvalidTransaction)));
    let mut tampered = tx.clone();
    tampered.transaction_revision = Revision(2);
    assert!(matches!(tampered.verify(&beacons()), Err(WireGuardKernelError::InvalidTransaction)));
}

#[test]
fn kernel_transaction_rolls_back_only_when_the_device_is_absent() {
    let plan = WireGuardKernelPlan::new(input(), &beacons()).unwrap();
    let snapshot = readback(&plan);
    let mut tx = ProofCarryingKernelTransaction::begin(Revision(3), plan.clone(), Some(&snapshot), &beacons()).unwrap();
    assert_eq!(tx.before_configuration_digest.map(|d| d.0), Some(snapshot.configuration_digest.0));
    assert!(matches!(tx.record_rollback(false, &beacons()), Err(WireGuardKernelError::InvalidTransaction)));
    tx.record_rollback(true, &beacons()).unwrap();
    assert_eq!(tx.phase, KernelTransactionPhase::RolledBack);
    assert_eq!(tx.recover(None, &beacons()).unwrap(), KernelRecoveryAction::RollbackComplete);
    assert_eq!(tx.recover(Some(&snapshot), &beacons()).unwrap(), KernelRecoveryAction::RefuseUnknownState);
    let mut other = input();
    other.fwmark = 0x20;
    let other = WireGuardKernelPlan::new(other, &beacons()).unwrap();
    assert!(matches!(
        ProofCarryingKernelTransaction::begin(Revision(3), other, Some(&snapshot), &beacons()),
        Err(WireGuardKernelError::ReadbackMismatch)
    ));
}

#[test]
fn plan_accepts_only_the_private_key_of_its_public_key() {
    let key = unf_encryption::keys::WireGuardPrivateKey::from_bytes([7; 32]).expect("nonzero key");
    let mut matching = input();
    matching.local_public_key = key.public_key();
    let plan = WireGuardKernelPlan::new(matching, &beacons()).expect("valid plan");
    assert!(plan.verify_private_key(&key).is_ok());
    let other = unf_encryption::keys::WireGuardPrivateKey::from_bytes([9; 32]).expect("nonzero key");
    assert!(matches!(plan.verify_private_key(&other), Err(WireGuardKernelError::PrivateKeyMismatch)));
}
