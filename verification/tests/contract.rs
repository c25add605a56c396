use unf_encryption::address::{IpAddr, IpPrefix, SocketAddr};
use unf_encryption::contract::{
    canonical_keys, canonical_node, contract_equal, AttestedEncryptionPathContract,
    EncryptionCapability, EncryptionContractError, EncryptionContractFacts,
    EncryptionContractRevisions, EncryptionEndpointFact, EncryptionFailureOutcome,
    EncryptionKeyFact, EncryptionKeyPhase, EncryptionNode, EncryptionPathClass,
    EncryptionPathFact, EncryptionPolicyFact,
};
use unf_encryption::ids::{IdentityId, PolicyId, Revision};
use unf_encryption::keys::WireGuardPublicKey;
use unf_encryption::model::{
    EncryptionBaseline, EncryptionDisposition, EncryptionIntent, EncryptionModel,
    ManagedIdentitySelector,
};

fn v4(a: u8, b: u8, c: u8, d: u8) -> IpAddr {
    IpAddr::V4(u32::from_be_bytes([a, b, c, d]))
}

fn v6(segments: [u16; 8]) -> IpAddr {
    let mut value: u128 = 0;
    for segment in segments {
        value = (value << 16) | u128::from(segment);
    }
    IpAddr::V6(value)
}

fn prefix(address: IpAddr, prefix_len: u8) -> IpPrefix {
    IpPrefix {
        address,
        prefix_len,
    }
}

fn capabilities() -> Vec<EncryptionCapability> {
    vec![
        EncryptionCapability::KernelWireGuard,
        EncryptionCapability::DualStackUnderlay,
        EncryptionCapability::PolicyRouting,
        EncryptionCapability::TwoEpochRotation,
        EncryptionCapability::EncryptedPathChallenge,
    ]
}

fn node(name: &str, ordinal: u8) -> EncryptionNode {
    EncryptionNode {
        cluster_id: "cluster-a".to_owned(),
        name: name.to_owned(),
        uid: format!("uid-{name}"),
        pod_cidrs: vec![
            prefix(v4(10, 42, ordinal, 0), 24),
            prefix(v6([0xfd42, u16::from(ordinal), 0, 0, 0, 0, 0, 0]), 64),
        ],
        underlay_addresses: vec![
            v4(192, 0, 2, ordinal),
            v6([0x2001, 0xdb8, 0, 0, 0, 0, 0, u16::from(ordinal)]),
        ],
        capabilities: capabilities(),
    }
}

fn path(source: &EncryptionNode, destination: &EncryptionNode) -> EncryptionPathFact {
    EncryptionPathFact {
        source_node_uid: source.uid.clone(),
        destination_node_uid: destination.uid.clone(),
        epoch: 7,
        path_class: EncryptionPathClass::ManagedPod,
        peer_endpoint: SocketAddr {
            ip: destination.underlay_addresses[0],
            port: 51_820,
        },
        allowed_ips: destination.pod_cidrs.clone(),
        interface_name: "unf-wg-a".to_owned(),
        route_table: 20_090,
        fwmark: 0x554e_4609,
        mtu: 1_420,
    }
}

fn fixture() -> (EncryptionModel, EncryptionContractFacts, EncryptionNode) {
    let source_node = node("worker-a", 1);
    let destination_node = node("worker-b", 2);
    let model = EncryptionModel::normalize(
        "cluster-a".to_owned(),
        EncryptionBaseline::Native,
        vec![EncryptionIntent {
            name: "payments-required".to_owned(),
            uid: "uid-intent-payments".to_owned(),
            priority: 100,
            sources: ManagedIdentitySelector::Identities(vec![IdentityId::new(11)]),
            destinations: ManagedIdentitySelector::Identities(vec![IdentityId::new(22)]),
        }],
    )
    .expect("valid model");
    let facts = EncryptionContractFacts {
        revisions: EncryptionContractRevisions {
            intent: Revision::new(1),
            identity: Revision::new(2),
            policy: Revision::new(3),
            routing: Revision::new(4),
            key: Revision::new(5),
        },
        active_epoch: 7,
        endpoints: vec![
            EncryptionEndpointFact {
                identity: IdentityId::new(22),
                workload_uid: "uid-ledger".to_owned(),
                node: destination_node.clone(),
            },
            EncryptionEndpointFact {
                identity: IdentityId::new(11),
                workload_uid: "uid-payments".to_owned(),
                node: source_node.clone(),
            },
        ],
        policies: vec![EncryptionPolicyFact {
            source: IdentityId::new(11),
            destination: IdentityId::new(22),
            allowed: true,
            policy_ids: vec![PolicyId::new(9), PolicyId::new(3)],
        }],
        keys: vec![
            EncryptionKeyFact {
                node_uid: destination_node.uid.clone(),
                epoch: 7,
                public_key: WireGuardPublicKey([2; 32]),
                phase: EncryptionKeyPhase::Active,
                valid_from_unix_ms: 900,
                valid_until_unix_ms: 3_000,
            },
            EncryptionKeyFact {
                node_uid: source_node.uid.clone(),
                epoch: 7,
                public_key: WireGuardPublicKey([1; 32]),
                phase: EncryptionKeyPhase::Active,
                valid_from_unix_ms: 900,
                valid_until_unix_ms: 3_000,
            },
        ],
        paths: vec![
            path(&destination_node, &source_node),
            path(&source_node, &destination_node),
        ],
    };
    (model, facts, source_node)
}

fn issue(
    model: &EncryptionModel,
    facts: &EncryptionContractFacts,
    source_node: &EncryptionNode,
) -> Result<AttestedEncryptionPathContract, EncryptionContractError> {
    AttestedEncryptionPathContract::issue(
        model,
        facts,
        source_node.clone(),
        Revision::new(6),
        1_000,
        2_000,
    )
}

#[test]
fn monotonic_intent_adds_required_but_cannot_weaken_required_baseline() {
    let (selective, _, _) = fixture();
    assert_eq!(
        selective
            .requirement(IdentityId::new(11), IdentityId::new(22))
            .disposition,
        EncryptionDisposition::Required
    );
    assert_eq!(
        selective
            .requirement(IdentityId::new(22), IdentityId::new(11))
            .disposition,
        EncryptionDisposition::Native
    );
    let required =
        EncryptionModel::normalize("cluster-a".to_owned(), EncryptionBaseline::Required, Vec::new())
            .expect("valid baseline");
    assert_eq!(
        required
            .requirement(IdentityId::new(22), IdentityId::new(11))
            .disposition,
        EncryptionDisposition::Required
    );
}

#[test]
fn contract_binds_policy_keys_epoch_routes_and_replays_independently() {
    let (model, facts, source_node) = fixture();
    let contract = issue(&model, &facts, &source_node).expect("valid contract");
    contract
        .verify(&model, &facts, &source_node)
        .expect("independent replay");
    contract.verify_integrity().expect("integrity");
    assert_eq!(contract.plans.len(), 1);
    assert_eq!(
        contract.plans[0].policy.policy_ids,
        vec![PolicyId::new(3), PolicyId::new(9)]
    );
    assert_eq!(contract.plans[0].source_key.epoch, 7);
    assert_eq!(contract.plans[0].transport.forward.mtu, 1_420);
    assert_eq!(contract.verified_invariants.len(), 13);
    assert_eq!(contract.failure_envelope.total_observations, 5);
    assert!(!contract.failure_envelope.truncated);
}

#[test]
fn canonical_input_order_produces_identical_digest_and_witness() {
    let (model, mut facts, source_node) = fixture();
    let first = issue(&model, &facts, &source_node).expect("valid contract");
    facts.endpoints.reverse();
    facts.keys.reverse();
    facts.paths.reverse();
    facts.policies[0].policy_ids.reverse();
    let second = issue(&model, &facts, &source_node).expect("order independent");
    assert!(contract_equal(&first, &second));
    assert_eq!(
        first.decision_witness(0).expect("witness").0,
        second.decision_witness(0).expect("witness").0
    );
    assert_eq!(first.contract_digest.0, second.contract_digest.0);
    assert!(first.decision_witness(1).is_err());
}

#[test]
fn denied_policy_never_reaches_encryption_planning() {
    let (model, mut facts, source_node) = fixture();
    facts.policies[0].allowed = false;
    let contract = issue(&model, &facts, &source_node).expect("denial is valid policy state");
    assert!(contract.plans.is_empty());
    assert!(contract.failure_envelope.observations.is_empty());
}

#[test]
fn missing_or_ambiguous_authority_fails_closed() {
    let (model, facts, source_node) = fixture();
    let cases = [
        {
            let mut value = facts.clone();
            value.policies.clear();
            value
        },
        {
            let mut value = facts.clone();
            value.keys.pop();
            value
        },
        {
            let mut value = facts.clone();
            value.paths.pop();
            value
        },
        {
            let mut value = facts.clone();
            value.paths[0].allowed_ips[0] = prefix(v4(10, 99, 0, 0), 16);
            value
        },
    ];
    for facts in cases {
        assert!(issue(&model, &facts, &source_node).is_err());
    }
}

#[test]
fn independent_replay_rejects_every_mutated_authority_domain() {
    let (model, facts, source_node) = fixture();
    let contract = issue(&model, &facts, &source_node).expect("valid contract");
    let mutations = [
        {
            let mut value = contract.clone();
            value.plans[0].policy.policy_ids.clear();
            value
        },
        {
            let mut value = contract.clone();
            value.plans[0].destination_key.epoch += 1;
            value
        },
        {
            let mut value = contract.clone();
            value.plans[0].transport.forward.fwmark += 1;
            value
        },
        {
            let mut value = contract.clone();
            value.plans[0].revisions.routing = Revision::new(99);
            value
        },
        {
            let mut value = contract.clone();
            value.failure_envelope.observations[0].outcome = EncryptionFailureOutcome::DenyRequired;
            value.failure_envelope.observations[0].destination = IdentityId::new(99);
            value
        },
    ];
    for mutation in mutations {
        assert!(matches!(
            mutation.verify(&model, &facts, &source_node),
            Err(EncryptionContractError::ReplayMismatch)
        ));
    }
}

#[test]
fn key_lifetime_capability_and_cross_cluster_inputs_fail_closed() {
    let (model, facts, source_node) = fixture();
    let mut expired = facts.clone();
    expired.keys[0].valid_until_unix_ms = 1_500;
    assert!(matches!(
        issue(&model, &expired, &source_node),
        Err(EncryptionContractError::InvalidKey)
    ));

    let mut incapable = facts.clone();
    incapable.endpoints[0]
        .node
        .capabilities
        .retain(|capability| *capability != EncryptionCapability::EncryptedPathChallenge);
    assert!(matches!(
        issue(&model, &incapable, &source_node),
        Err(EncryptionContractError::MissingCapability(
            EncryptionCapability::EncryptedPathChallenge
        ))
    ));

    let mut foreign = facts;
    foreign.endpoints[0].node.cluster_id = "cluster-b".to_owned();
    assert!(matches!(
        issue(&model, &foreign, &source_node),
        Err(EncryptionContractError::InvalidNode(_))
    ));
}

#[test]
fn conflicting_node_identity_public_key_and_nested_prefixes_fail_closed() {
    let (model, facts, source_node) = fixture();

    let mut conflicting_node = facts.clone();
    let mut extra = conflicting_node.endpoints[0].clone();
    extra.identity = IdentityId::new(23);
    extra.workload_uid = "uid-conflict".to_owned();
    extra.node.name = "different-name".to_owned();
    conflicting_node.endpoints.push(extra);
    assert!(matches!(
        issue(&model, &conflicting_node, &source_node),
        Err(EncryptionContractError::InvalidNode(_))
    ));

    let mut shared_public_key = facts.clone();
    shared_public_key.keys[1].public_key = shared_public_key.keys[0].public_key;
    assert!(matches!(
        issue(&model, &shared_public_key, &source_node),
        Err(EncryptionContractError::InvalidKey)
    ));

    let mut conflicting_workload = facts.clone();
    let mut extra = conflicting_workload.endpoints[0].clone();
    extra.identity = IdentityId::new(23);
    conflicting_workload.endpoints.push(extra);
    assert!(matches!(
        issue(&model, &conflicting_workload, &source_node),
        Err(EncryptionContractError::InvalidNode(_))
    ));

    let mut local_identity_drift = facts.clone();
    local_identity_drift.endpoints[1].node.pod_cidrs[0] = prefix(v4(10, 77, 0, 0), 16);
    assert!(matches!(
        issue(&model, &local_identity_drift, &source_node),
        Err(EncryptionContractError::InvalidNode(_))
    ));

    let mut nested_prefix = facts;
    nested_prefix.endpoints[0]
        .node
        .pod_cidrs
        .push(prefix(v4(10, 42, 2, 128), 25));
    assert!(matches!(
        issue(&model, &nested_prefix, &source_node),
        Err(EncryptionContractError::InvalidNode(_))
    ));
}

#[test]
fn overlapping_allowed_ips_across_destination_nodes_are_rejected() {
    let (model, mut facts, source_node) = fixture();
    let mut third_node = node("worker-c", 3);
    third_node.pod_cidrs = facts.endpoints[0].node.pod_cidrs.clone();
    facts.endpoints.push(EncryptionEndpointFact {
        identity: IdentityId::new(22),
        workload_uid: "uid-ledger-2".to_owned(),
        node: third_node.clone(),
    });
    facts.keys.push(EncryptionKeyFact {
        node_uid: third_node.uid.clone(),
        epoch: 7,
        public_key: WireGuardPublicKey([3; 32]),
        phase: EncryptionKeyPhase::Active,
        valid_from_unix_ms: 900,
        valid_until_unix_ms: 3_000,
    });
    facts.paths.push(path(&source_node, &third_node));
    facts.paths.push(path(&third_node, &source_node));
    assert!(matches!(
        issue(&model, &facts, &source_node),
        Err(EncryptionContractError::AmbiguousAllowedIp)
    ));
}

#[test]
fn contract_issue_reports_each_front_error() {
    let (model, facts, source_node) = fixture();
    let stale = AttestedEncryptionPathContract::issue(
        &model,
        &facts,
        source_node.clone(),
        Revision::new(0),
        1_000,
        2_000,
    );
    assert!(matches!(stale, Err(EncryptionContractError::InvalidRevisionOrLifetime)));
    let inverted = AttestedEncryptionPathContract::issue(
        &model,
        &facts,
        source_node.clone(),
        Revision::new(6),
        2_000,
        1_000,
    );
    assert!(matches!(inverted, Err(EncryptionContractError::InvalidRevisionOrLifetime)));

    let mut duplicate_endpoint = facts.clone();
    let again = duplicate_endpoint.endpoints[0].clone();
    duplicate_endpoint.endpoints.push(again);
    assert!(matches!(
        issue(&model, &duplicate_endpoint, &source_node),
        Err(EncryptionContractError::InvalidEndpoint)
    ));

    let mut zero_policy = facts.clone();
    zero_policy.policies[0].policy_ids.push(PolicyId::new(0));
    assert!(matches!(
        issue(&model, &zero_policy, &source_node),
        Err(EncryptionContractError::InvalidPolicy)
    ));

    let mut empty_policy = facts.clone();
    empty_policy.policies[0].policy_ids.clear();
    assert!(matches!(
        issue(&model, &empty_policy, &source_node),
        Err(EncryptionContractError::InvalidPolicy)
    ));

    let mut duplicate_allowed = facts.clone();
    let first = duplicate_allowed.paths[0].allowed_ips[0];
    duplicate_allowed.paths[0].allowed_ips.push(first);
    assert!(matches!(
        issue(&model, &duplicate_allowed, &source_node),
        Err(EncryptionContractError::InvalidPath("duplicate AllowedIPs"))
    ));

    let mut duplicate_path = facts.clone();
    let again = duplicate_path.paths[0].clone();
    duplicate_path.paths.push(again);
    assert!(matches!(
        issue(&model, &duplicate_path, &source_node),
        Err(EncryptionContractError::InvalidPath("duplicate directional path"))
    ));

    let mut bad_mtu = facts.clone();
    bad_mtu.paths[1].mtu = 9_217;
    assert!(matches!(
        issue(&model, &bad_mtu, &source_node),
        Err(EncryptionContractError::InvalidPath(_))
    ));

    let mut foreign_local = source_node.clone();
    foreign_local.cluster_id = "cluster-b".to_owned();
    assert!(matches!(
        issue(&model, &facts, &foreign_local),
        Err(EncryptionContractError::InvalidNode("local cluster identity mismatch"))
    ));
}

#[test]
fn integrity_detects_mutation_and_schema_drift() {
    let (model, facts, source_node) = fixture();
    let contract = issue(&model, &facts, &source_node).expect("valid contract");
    let mut mutated = contract.clone();
    mutated.valid_until_unix_ms += 1;
    assert!(matches!(
        mutated.verify_integrity(),
        Err(EncryptionContractError::ReplayMismatch)
    ));
    let mut drifted = contract.clone();
    drifted.schema_version = 2;
    assert!(matches!(
        drifted.verify_integrity(),
        Err(EncryptionContractError::UnsupportedSchema {
            actual: 2,
            expected: 1
        })
    ));
    assert!(matches!(
        drifted.verify(&model, &facts, &source_node),
        Err(EncryptionContractError::UnsupportedSchema { .. })
    ));
}

#[test]
fn envelope_denies_every_failure_class_of_each_plan() {
    let (model, facts, source_node) = fixture();
    let contract = issue(&model, &facts, &source_node).expect("valid contract");
    let observations = &contract.failure_envelope.observations;
    assert_eq!(observations.len(), 5);
    for observation in observations {
        assert_eq!(observation.source, IdentityId::new(11));
        assert_eq!(observation.destination, IdentityId::new(22));
        assert_eq!(observation.source_workload_uid, "uid-payments");
        assert_eq!(observation.destination_workload_uid, "uid-ledger");
    }
}

#[test]
fn canonical_node_orders_prefixes_and_reports_missing_capability() {
    let mut input = node("worker-z", 9);
    input.pod_cidrs.reverse();
    input.underlay_addresses.reverse();
    let canonical = canonical_node(input.clone()).expect("valid node");
    assert_eq!(canonical.pod_cidrs[0], prefix(v4(10, 42, 9, 0), 24));
    assert_eq!(canonical.underlay_addresses[0], v4(192, 0, 2, 9));
    assert_eq!(canonical.capabilities, capabilities());

    let mut lacking = input.clone();
    lacking.capabilities = vec![EncryptionCapability::KernelWireGuard];
    assert!(matches!(
        canonical_node(lacking),
        Err(EncryptionContractError::MissingCapability(
            EncryptionCapability::DualStackUnderlay
        ))
    ));

    let mut loopback = input;
    loopback.underlay_addresses.push(v4(127, 0, 0, 1));
    assert!(matches!(
        canonical_node(loopback),
        Err(EncryptionContractError::InvalidNode("invalid or duplicate network identity"))
    ));
}

#[test]
fn canonical_keys_orders_by_node_and_epoch_and_rejects_reuse() {
    let (_, facts, _) = fixture();
    let keys = canonical_keys(&facts.keys).expect("valid keys");
    assert_eq!(keys[0].node_uid, "uid-worker-a");
    assert_eq!(keys[1].node_uid, "uid-worker-b");
    let mut zero = facts.keys.clone();
    zero[0].public_key = WireGuardPublicKey([0; 32]);
    assert!(matches!(canonical_keys(&zero), Err(EncryptionContractError::InvalidKey)));
}

#[test]
fn intent_normalization_is_permutation_independent() {
    let identities: Vec<u32> = vec![3, 17, 42, 99, 1_000, 5_555, 9_999];
    let intents = identities
        .iter()
        .enumerate()
        .map(|(index, identity)| EncryptionIntent {
            name: format!("intent-{identity}"),
            uid: format!("uid-{identity}"),
            priority: u32::try_from(index % 4).expect("bounded priority"),
            sources: ManagedIdentitySelector::Identities(vec![IdentityId::new(*identity)]),
            destinations: ManagedIdentitySelector::AllManaged,
        })
        .collect::<Vec<_>>();
    let first = EncryptionModel::normalize(
        "cluster-a".to_owned(),
        EncryptionBaseline::Native,
        intents.clone(),
    )
    .expect("valid model");
    let second = EncryptionModel::normalize(
        "cluster-a".to_owned(),
        EncryptionBaseline::Native,
        intents.into_iter().rev().collect(),
    )
    .expect("valid reversed model");
    let first_uids: Vec<String> = first.intents.iter().map(|intent| intent.uid.clone()).collect();
    let second_uids: Vec<String> = second.intents.iter().map(|intent| intent.uid.clone()).collect();
    assert_eq!(first_uids, second_uids);
}
