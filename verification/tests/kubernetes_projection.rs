use unf_encryption::address::{IpAddr, IpPrefix};
use unf_encryption::ids::IdentityId;
use unf_encryption::kernel_plan::ProofBeacon;
use unf_encryption::kubernetes_projection::{
    project_kubernetes_encryption_placement, validate_nodes, KubernetesEncryptionNodeSnapshot,
    KubernetesEncryptionProjectionError, KubernetesEncryptionWorkloadSnapshot, MAX_ENCRYPTION_ENDPOINT_ADDRESSES,
};
use unf_encryption::model::MAX_ENCRYPTION_ENDPOINTS;

fn v4(a: u8, b: u8, c: u8, d: u8) -> IpAddr {
    IpAddr::V4(u32::from_be_bytes([a, b, c, d]))
}

fn v6(segments: [u16; 8]) -> IpAddr {
    let mut value: u128 = 0;
    for segment in segments {
        value = (value << 16) | u128::from(segment);
    }
    IpAddr::V6(value)
}

fn prefix(address: IpAddr, prefix_len: u8) -> IpPrefix {
    IpPrefix { address, prefix_len }
}

struct Fixture {
    cluster_id: String,
    nodes: Vec<KubernetesEncryptionNodeSnapshot>,
    workloads: Vec<KubernetesEncryptionWorkloadSnapshot>,
}

fn node(name: &str, uid: &str, index: u8) -> KubernetesEncryptionNodeSnapshot {
    KubernetesEncryptionNodeSnapshot {
        name: name.to_owned(),
        uid: uid.to_owned(),
        ready: true,
        managed: true,
        pod_cidrs: vec![
            prefix(v4(10, 42, index, 0), 24),
            prefix(v6([0xfd42, u16::from(index), 0, 0, 0, 0, 0, 0]), 64),
        ],
        underlay_addresses: vec![v4(192, 0, 2, index)],
    }
}

fn workload(uid: &str, identity: u32, node_name: &str, index: u8) -> KubernetesEncryptionWorkloadSnapshot {
    KubernetesEncryptionWorkloadSnapshot {
        workload_uid: uid.to_owned(),
        identity: IdentityId::new(identity),
        node_name: node_name.to_owned(),
        host_network: false,
        addresses: vec![v4(10, 42, index, 8), v6([0xfd42, u16::from(index), 0, 0, 0, 0, 0, 8])],
    }
}

fn input() -> Fixture {
    Fixture {
        cluster_id: "cluster-a".to_owned(),
        nodes: vec![node("worker-a", "uid-a", 1), node("worker-b", "uid-b", 2)],
        workloads: vec![workload("pod-a", 11, "worker-a", 1), workload("pod-b", 21, "worker-b", 2)],
    }
}

fn beacons_for(nodes: &[KubernetesEncryptionNodeSnapshot]) -> Vec<ProofBeacon> {
    let mut beacons = Vec::new();
    for node in nodes {
        for block in &node.pod_cidrs {
            let beacon = match block.address {
                IpAddr::V4(network) => IpAddr::V4(network | (u32::MAX >> block.prefix_len) & !1),
                IpAddr::V6(network) => IpAddr::V6(network | (u128::MAX >> block.prefix_len) & !1),
            };
            beacons.push(ProofBeacon { block: *block, beacon });
        }
    }
    beacons
}

#[test]
fn kubernetes_placement_keeps_canonical_exact_owners_without_policy_pairs() {
    let mut fixture = input();
    let mut replica = fixture.workloads[0].clone();
    replica.workload_uid = "replica".to_owned();
    replica.addresses = vec![v4(10, 42, 1, 9), v6([0xfd42, 1, 0, 0, 0, 0, 0, 9])];
    fixture.workloads.push(replica);
    let mut host = fixture.workloads[0].clone();
    host.workload_uid = "host".to_owned();
    host.host_network = true;
    fixture.workloads.push(host);
    let beacons = beacons_for(&fixture.nodes);
    let in_given_order = project_kubernetes_encryption_placement(
        &fixture.cluster_id,
        fixture.nodes.clone(),
        fixture.workloads.clone(),
        &beacons,
    )
    .unwrap();
    assert_eq!(in_given_order.endpoints().len(), 3);
    assert_eq!(in_given_order.addresses().len(), 6);
    assert_eq!(in_given_order.cluster_id(), "cluster-a");
    assert_eq!(in_given_order.nodes().len(), 2);
    let first = &in_given_order.addresses()[0];
    assert_eq!(first.address, v4(10, 42, 1, 8));
    assert_eq!(first.workload_uid, "pod-a");
    assert_eq!(first.identity, IdentityId::new(11));
    assert_eq!(first.node_uid, "uid-a");
    fixture.nodes.reverse();
    fixture.workloads.reverse();
    for workload in &mut fixture.workloads {
        workload.addresses.reverse();
    }
    let reordered =
        project_kubernetes_encryption_placement(&fixture.cluster_id, fixture.nodes, fixture.workloads, &beacons)
            .unwrap();
    assert_eq!(format!("{reordered:?}"), format!("{in_given_order:?}"));
}

#[test]
fn kubernetes_placement_refuses_address_and_endpoint_overflow_before_expansion() {
    let mut fixture = input();
    let beacons = beacons_for(&fixture.nodes);
    fixture.workloads[0].addresses = vec![v4(10, 42, 1, 8); MAX_ENCRYPTION_ENDPOINT_ADDRESSES + 1];
    assert!(matches!(
        project_kubernetes_encryption_placement(&fixture.cluster_id, fixture.nodes, fixture.workloads, &beacons),
        Err(KubernetesEncryptionProjectionError::Capacity)
    ));
    let fixture = input();
    assert!(matches!(
        project_kubernetes_encryption_placement(
            &fixture.cluster_id,
            fixture.nodes,
            vec![fixture.workloads[0].clone(); MAX_ENCRYPTION_ENDPOINTS + 1],
            &beacons,
        ),
        Err(KubernetesEncryptionProjectionError::Capacity)
    ));
}

#[test]
fn kubernetes_placement_full_endpoint_budget_has_only_linear_address_records() {
    let mut fixture = input();
    fixture.nodes[0].pod_cidrs[0] = prefix(v4(10, 20, 0, 0), 16);
    fixture.nodes[1].pod_cidrs[0] = prefix(v4(10, 21, 0, 0), 16);
    let beacons = beacons_for(&fixture.nodes);
    let workloads = (0..MAX_ENCRYPTION_ENDPOINTS)
        .map(|index| {
            let ordinal = u16::try_from(index + 8).unwrap();
            let [high, low] = ordinal.to_be_bytes();
            let node_index = index % 2;
            let subnet = 20 + u8::try_from(node_index).unwrap();
            KubernetesEncryptionWorkloadSnapshot {
                workload_uid: format!("workload-{index}"),
                identity: IdentityId::new(u32::try_from(index + 1).unwrap()),
                node_name: fixture.nodes[node_index].name.clone(),
                host_network: false,
                addresses: vec![
                    v4(10, subnet, high, low),
                    v6([0xfd42, u16::try_from(node_index + 1).unwrap(), 0, 0, 0, 0, 0, ordinal]),
                ],
            }
        })
        .collect();
    let placement =
        project_kubernetes_encryption_placement(&fixture.cluster_id, fixture.nodes, workloads, &beacons).unwrap();
    assert_eq!(placement.endpoints().len(), MAX_ENCRYPTION_ENDPOINTS);
    assert_eq!(placement.addresses().len(), MAX_ENCRYPTION_ENDPOINTS * 2);
}

#[test]
fn kubernetes_projection_refuses_unready_members_and_overlapping_blocks() {
    let mut unready = input();
    let beacons = beacons_for(&unready.nodes);
    unready.nodes[1].ready = false;
    assert!(matches!(
        project_kubernetes_encryption_placement(&unready.cluster_id, unready.nodes, unready.workloads, &beacons),
        Err(KubernetesEncryptionProjectionError::InvalidNode)
    ));
    let mut overlap = input();
    overlap.nodes[1].pod_cidrs[0] = prefix(v4(10, 42, 1, 128), 25);
    assert!(matches!(
        project_kubernetes_encryption_placement(&overlap.cluster_id, overlap.nodes, overlap.workloads, &beacons),
        Err(KubernetesEncryptionProjectionError::AmbiguousPrefix)
    ));
}

#[test]
fn node_cut_validation_names_each_refusal() {
    let mut unready = input();
    unready.nodes[1].managed = false;
    assert_eq!(
        validate_nodes(&unready.cluster_id, &unready.nodes),
        Err(KubernetesEncryptionProjectionError::InvalidNode)
    );
    let duplicate_name = {
        let mut fixture = input();
        fixture.nodes[1].name = "worker-a".to_owned();
        fixture
    };
    assert_eq!(
        validate_nodes(&duplicate_name.cluster_id, &duplicate_name.nodes),
        Err(KubernetesEncryptionProjectionError::InvalidNode)
    );
    let mut noncanonical = input();
    noncanonical.nodes[0].pod_cidrs[0] = prefix(v4(10, 42, 1, 1), 24);
    assert_eq!(
        validate_nodes(&noncanonical.cluster_id, &noncanonical.nodes),
        Err(KubernetesEncryptionProjectionError::InvalidNode)
    );
    assert_eq!(validate_nodes("", &input().nodes), Err(KubernetesEncryptionProjectionError::InvalidInput));
    assert_eq!(validate_nodes("cluster-a", &Vec::new()), Err(KubernetesEncryptionProjectionError::InvalidInput));
    assert_eq!(validate_nodes("cluster-a", &input().nodes), Ok(()));
}

#[test]
fn kubernetes_projection_excludes_host_network_but_refuses_ipam_drift() {
    let mut valid = input();
    let beacons = beacons_for(&valid.nodes);
    valid.workloads.push(KubernetesEncryptionWorkloadSnapshot {
        workload_uid: "host".to_owned(),
        identity: IdentityId::new(31),
        node_name: "worker-a".to_owned(),
        host_network: true,
        addresses: vec![v4(192, 0, 2, 1)],
    });
    let placement =
        project_kubernetes_encryption_placement(&valid.cluster_id, valid.nodes, valid.workloads, &beacons).unwrap();
    assert_eq!(placement.endpoints().len(), 2);
    assert_eq!(placement.endpoints()[0].workload_uid, "pod-a");
    assert_eq!(placement.endpoints()[0].node.uid, "uid-a");
    assert_eq!(placement.nodes()[0].pod_cidrs[0], prefix(v4(10, 42, 1, 0), 24));

    let mut drift = input();
    drift.workloads[0].addresses[0] = v4(10, 99, 0, 8);
    assert!(matches!(
        project_kubernetes_encryption_placement(&drift.cluster_id, drift.nodes, drift.workloads, &beacons),
        Err(KubernetesEncryptionProjectionError::InvalidWorkload)
    ));
    let mut beacon_collision = input();
    beacon_collision.workloads[0].addresses[0] = v4(10, 42, 1, 254);
    assert!(matches!(
        project_kubernetes_encryption_placement(
            &beacon_collision.cluster_id,
            beacon_collision.nodes,
            beacon_collision.workloads,
            &beacons,
        ),
        Err(KubernetesEncryptionProjectionError::InvalidWorkload)
    ));
    let unknown_node = {
        let mut fixture = input();
        fixture.workloads[1].node_name = "worker-z".to_owned();
        fixture
    };
    assert!(matches!(
        project_kubernetes_encryption_placement(
            &unknown_node.cluster_id,
            unknown_node.nodes,
            unknown_node.workloads,
            &beacons,
        ),
        Err(KubernetesEncryptionProjectionError::InvalidWorkload)
    ));
    let fixture = input();
    assert!(matches!(
        project_kubernetes_encryption_placement(&fixture.cluster_id, fixture.nodes, fixture.workloads, &Vec::new()),
        Err(KubernetesEncryptionProjectionError::InvalidNode)
    ));
}

#[test]
fn kubernetes_projection_refuses_ambiguous_workload_address_ownership() {
    for same_identity in [false, true] {
        let mut duplicate = input();
        let beacons = beacons_for(&duplicate.nodes);
        let mut replica = duplicate.workloads[0].clone();
        replica.workload_uid = "another-pod".to_owned();
        if !same_identity {
            replica.identity = IdentityId::new(12);
        }
        duplicate.workloads.push(replica);
        assert!(matches!(
            project_kubernetes_encryption_placement(
                &duplicate.cluster_id,
                duplicate.nodes,
                duplicate.workloads,
                &beacons,
            ),
            Err(KubernetesEncryptionProjectionError::InvalidWorkload)
        ));
    }
    let mut duplicate = input();
    let beacons = beacons_for(&duplicate.nodes);
    duplicate.workloads[0].addresses.push(v4(10, 42, 1, 8));
    assert!(matches!(
        project_kubernetes_encryption_placement(&duplicate.cluster_id, duplicate.nodes, duplicate.workloads, &beacons),
        Err(KubernetesEncryptionProjectionError::InvalidWorkload)
    ));
    let mut same_uid = input();
    same_uid.workloads[1].workload_uid = "pod-a".to_owned();
    assert!(matches!(
        project_kubernetes_encryption_placement(&same_uid.cluster_id, same_uid.nodes, same_uid.workloads, &beacons),
        Err(KubernetesEncryptionProjectionError::InvalidWorkload)
    ));
}

#[test]
fn placement_gives_every_address_one_owner_inside_its_node() {
    let fixture = input();
    let beacons = beacons_for(&fixture.nodes);
    let placement =
        project_kubernetes_encryption_placement(&fixture.cluster_id, fixture.nodes.clone(), fixture.workloads, &beacons)
            .unwrap();
    let owners = placement.addresses();
    assert_eq!(owners.len(), 4);
    for pair in owners.windows(2) {
        assert_ne!(pair[0].address, pair[1].address);
    }
    for owner in owners {
        let node = fixture.nodes.iter().find(|node| node.uid == owner.node_uid).expect("owner node");
        assert!(node.pod_cidrs.iter().any(|block| block.contains(owner.address)));
        assert!(beacons.iter().all(|beacon| beacon.beacon != owner.address));
    }
    assert_eq!(owners[0].address, v4(10, 42, 1, 8));
    assert_eq!(owners[1].address, v4(10, 42, 2, 8));
    assert_eq!(owners[2].node_uid, "uid-a");
    assert_eq!(owners[3].workload_uid, "pod-b");
}

#[test]
fn placement_is_determined_by_its_inputs() {
    let fixture = input();
    let beacons = beacons_for(&fixture.nodes);
    let first = project_kubernetes_encryption_placement(
        &fixture.cluster_id,
        fixture.nodes.clone(),
        fixture.workloads.clone(),
        &beacons,
    );
    let second = project_kubernetes_encryption_placement(&fixture.cluster_id, fixture.nodes, fixture.workloads, &beacons);
    assert_eq!(format!("{first:?}"), format!("{second:?}"));
    assert_eq!(second.unwrap().nodes()[1].name, "worker-b");
}
