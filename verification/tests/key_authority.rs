use std::cell::Cell;
use std::rc::Rc;

use unf_encryption::ids::Revision;
use unf_encryption::key_authority::{
    admit_authenticated_publication, AuthenticatedNodeIdentity, DurableNodeKeyAuthority,
    EpochDrainProof, EpochRevocationReason, KeyAuthorityError, KeyEpochPhase, LocalKeyEpoch,
    NodeKeyAuthority, NodeKeyStateStore, OsWireGuardKeyGenerator, PeerEpochAcknowledgement,
    PersistedAuthorityDocument, PublicationAdmission, WireGuardKeyGenerator, MAX_EPOCH_DRAIN_MS, MAX_KEY_LIFETIME_MS,
};
use unf_encryption::keys::WireGuardPrivateKey;

const NOW: u64 = 1_000_000;

struct FixedGenerator {
    next: u8,
}

impl WireGuardKeyGenerator for FixedGenerator {
    fn generate(&mut self) -> Result<WireGuardPrivateKey, KeyAuthorityError> {
        let key = WireGuardPrivateKey::from_bytes([self.next; 32])?;
        self.next = self.next.saturating_add(1);
        Ok(key)
    }
}

#[derive(Default, Clone)]
struct FailingStore {
    fail: Rc<Cell<bool>>,
    writes: Rc<Cell<u64>>,
}

impl NodeKeyStateStore for FailingStore {
    fn persist(&self, _authority: &NodeKeyAuthority) -> Result<(), KeyAuthorityError> {
        if self.fail.get() {
            return Err(KeyAuthorityError::Storage("injected failure".to_owned()));
        }
        self.writes.set(self.writes.get() + 1);
        Ok(())
    }
}

fn authority() -> NodeKeyAuthority {
    NodeKeyAuthority::new(
        "cluster-a".to_owned(),
        "worker-a".to_owned(),
        "node-uid-a".to_owned(),
    )
    .unwrap()
}

fn peers() -> Vec<String> {
    vec!["node-uid-b".to_owned(), "node-uid-c".to_owned()]
}

fn acknowledgement(epoch: &LocalKeyEpoch, peer: &str, observed: u64) -> PeerEpochAcknowledgement {
    PeerEpochAcknowledgement {
        peer_node_uid: peer.to_owned(),
        target_node_uid: "node-uid-a".to_owned(),
        epoch: epoch.epoch(),
        barrier_digest: epoch.barrier().barrier_digest,
        peer_public_epoch: 7,
        observed_at_unix_ms: observed,
    }
}

fn prepare_and_attest(authority: &mut NodeKeyAuthority, generator: &mut FixedGenerator) -> u64 {
    let epoch = authority
        .prepare_epoch(Revision::new(4), peers(), NOW, NOW + 100_000, generator)
        .unwrap();
    for peer in peers() {
        let ack = acknowledgement(&authority.epochs()[0], &peer, NOW + 1);
        authority.acknowledge_epoch(&peer, ack, NOW + 1).unwrap();
    }
    epoch
}

#[test]
fn os_generator_produces_distinct_nonzero_wireguard_keys() {
    let mut generator = OsWireGuardKeyGenerator;
    let first = generator.generate().unwrap();
    let second = generator.generate().unwrap();
    assert_ne!(first.public_key().0, second.public_key().0);
    assert_ne!(first.expose_for_kernel(), &[0; 32]);
}

#[test]
fn causal_epoch_barrier_requires_every_exact_authenticated_peer() {
    let mut authority = authority();
    let mut generator = FixedGenerator { next: 1 };
    let epoch = authority
        .prepare_epoch(Revision::new(4), peers(), NOW, NOW + 100_000, &mut generator)
        .unwrap();
    let first = acknowledgement(&authority.epochs()[0], "node-uid-b", NOW + 1);
    authority
        .acknowledge_epoch("node-uid-b", first.clone(), NOW + 1)
        .unwrap();
    assert_eq!(authority.epochs()[0].phase(), KeyEpochPhase::Prepared);
    assert!(!authority
        .acknowledge_epoch("node-uid-b", first, NOW + 1)
        .unwrap());
    assert!(matches!(
        authority.activate_epoch(epoch, Revision::new(4), NOW + 2, 1_000),
        Err(KeyAuthorityError::ActivationBarrierNotSatisfied)
    ));
    let second = acknowledgement(&authority.epochs()[0], "node-uid-c", NOW + 2);
    authority
        .acknowledge_epoch("node-uid-c", second, NOW + 2)
        .unwrap();
    assert_eq!(authority.epochs()[0].phase(), KeyEpochPhase::MutuallyAttested);
    authority
        .activate_epoch(epoch, Revision::new(4), NOW + 2, 1_000)
        .unwrap();
    assert_eq!(authority.epochs()[0].phase(), KeyEpochPhase::Active);
}

#[test]
fn forged_mutated_expired_and_topology_stale_acknowledgements_fail_closed() {
    let mut authority = authority();
    let mut generator = FixedGenerator { next: 1 };
    authority
        .prepare_epoch(Revision::new(4), peers(), NOW, NOW + 100, &mut generator)
        .unwrap();
    let ack = acknowledgement(&authority.epochs()[0], "node-uid-b", NOW + 1);
    assert!(matches!(
        authority.acknowledge_epoch("node-uid-c", ack.clone(), NOW + 1),
        Err(KeyAuthorityError::UnauthenticatedPeer)
    ));
    authority
        .acknowledge_epoch("node-uid-b", ack.clone(), NOW + 1)
        .unwrap();
    let mut mutated = ack;
    mutated.peer_public_epoch += 1;
    assert!(matches!(
        authority.acknowledge_epoch("node-uid-b", mutated, NOW + 2),
        Err(KeyAuthorityError::AcknowledgementMutation)
    ));
    let late = acknowledgement(&authority.epochs()[0], "node-uid-c", NOW + 101);
    assert!(matches!(
        authority.acknowledge_epoch("node-uid-c", late, NOW + 101),
        Err(KeyAuthorityError::InvalidAcknowledgement)
    ));
    let valid = acknowledgement(&authority.epochs()[0], "node-uid-c", NOW + 2);
    authority
        .acknowledge_epoch("node-uid-c", valid, NOW + 2)
        .unwrap();
    assert!(matches!(
        authority.activate_epoch(1, Revision::new(5), NOW + 3, 10),
        Err(KeyAuthorityError::ActivationBarrierNotSatisfied)
    ));
}

#[test]
fn two_epoch_rotation_moves_new_epoch_and_requires_positive_drain_proof() {
    let mut authority = authority();
    let mut generator = FixedGenerator { next: 1 };
    let first = prepare_and_attest(&mut authority, &mut generator);
    authority
        .activate_epoch(first, Revision::new(4), NOW + 2, 2_000)
        .unwrap();
    let second = authority
        .prepare_epoch(Revision::new(5), peers(), NOW + 10, NOW + 90_000, &mut generator)
        .unwrap();
    for peer in peers() {
        let ack = acknowledgement(&authority.epochs()[1], &peer, NOW + 11);
        authority.acknowledge_epoch(&peer, ack, NOW + 11).unwrap();
    }
    authority
        .activate_epoch(second, Revision::new(5), NOW + 12, 1_000)
        .unwrap();
    assert_eq!(authority.epochs()[0].phase(), KeyEpochPhase::Draining);
    assert_eq!(authority.epochs()[1].phase(), KeyEpochPhase::Active);
    assert_eq!(
        authority.drained_epoch_ready_for_retirement(NOW + 1_011).unwrap(),
        None
    );
    assert_eq!(
        authority.drained_epoch_ready_for_retirement(NOW + 1_012).unwrap(),
        Some(first)
    );
    let nonempty =
        EpochDrainProof::issue("node-uid-a".to_owned(), first, Revision::new(9), NOW + 20, 1, 0)
            .unwrap();
    assert!(matches!(
        authority.retire_drained_epoch(&nonempty, NOW + 20),
        Err(KeyAuthorityError::InvalidDrainProof)
    ));
    let empty =
        EpochDrainProof::issue("node-uid-a".to_owned(), first, Revision::new(10), NOW + 21, 0, 0)
            .unwrap();
    authority.retire_drained_epoch(&empty, NOW + 21).unwrap();
    assert_eq!(authority.epochs().len(), 1);
    assert_eq!(authority.publication().unwrap().retired_through_epoch, first);
    assert_eq!(authority.epochs()[0].phase(), KeyEpochPhase::Active);
}

#[test]
fn emergency_revocation_drops_secret_epochs_and_denies_reuse() {
    let mut authority = authority();
    let mut generator = FixedGenerator { next: 1 };
    let first = prepare_and_attest(&mut authority, &mut generator);
    authority
        .activate_epoch(first, Revision::new(4), NOW + 2, 1_000)
        .unwrap();
    let receipt = authority
        .revoke_through(first, EpochRevocationReason::SuspectedCompromise, NOW + 3)
        .unwrap();
    receipt.verify().unwrap();
    assert!(authority.epochs().is_empty());
    assert_eq!(authority.publication().unwrap().revoked_through_epoch, first);
    assert_ne!(receipt.receipt_digest.0, [0; 32]);
    let mut forged = receipt.clone();
    forged.revoked_through_epoch += 1;
    assert!(matches!(
        forged.verify(),
        Err(KeyAuthorityError::InvalidRevocationReceipt)
    ));
    let next = authority
        .prepare_epoch(Revision::new(5), Vec::new(), NOW + 4, NOW + 10_000, &mut generator)
        .unwrap();
    assert_eq!(next, first + 1);
}

#[test]
fn authenticated_publication_rejects_replay_mutation_and_node_replacement() {
    let mut authority = authority();
    let mut generator = FixedGenerator { next: 1 };
    prepare_and_attest(&mut authority, &mut generator);
    let publication = authority.publication().unwrap();
    let identity = AuthenticatedNodeIdentity {
        cluster_id: "cluster-a".to_owned(),
        node_name: "worker-a".to_owned(),
        node_uid: "node-uid-a".to_owned(),
    };
    assert_eq!(
        admit_authenticated_publication(&identity, &publication, None).unwrap(),
        PublicationAdmission::Accepted
    );
    assert_eq!(
        admit_authenticated_publication(&identity, &publication, Some(&publication)).unwrap(),
        PublicationAdmission::Idempotent
    );
    let mut mutation = publication.clone();
    mutation.epochs[0].public_key.0[0] ^= 1;
    assert!(matches!(
        admit_authenticated_publication(&identity, &mutation, Some(&publication)),
        Err(KeyAuthorityError::InvalidPublication)
    ));
    let mut mutation = publication.clone();
    mutation.epochs[0].topology_revision = mutation.epochs[0].topology_revision.next();
    mutation.publication_digest = mutation.calculate_digest();
    assert!(matches!(
        admit_authenticated_publication(&identity, &mutation, Some(&publication)),
        Err(KeyAuthorityError::PublicationMutation)
    ));
    let mut stale = publication.clone();
    stale.key_revision = Revision::initial();
    stale.publication_digest = stale.calculate_digest();
    assert!(matches!(
        admit_authenticated_publication(&identity, &stale, Some(&publication)),
        Err(KeyAuthorityError::PublicationReplay)
    ));
    let mut omitted = publication.clone();
    omitted.key_revision = omitted.key_revision.next();
    omitted.epochs.clear();
    omitted.publication_digest = omitted.calculate_digest();
    assert!(matches!(
        admit_authenticated_publication(&identity, &omitted, Some(&publication)),
        Err(KeyAuthorityError::PublicationRegression)
    ));

    let replacement_authority = NodeKeyAuthority::new(
        "cluster-a".to_owned(),
        "worker-a".to_owned(),
        "replacement-uid".to_owned(),
    )
    .unwrap();
    let replacement_publication = replacement_authority.publication().unwrap();
    let replacement_identity = AuthenticatedNodeIdentity {
        node_uid: "replacement-uid".to_owned(),
        ..identity
    };
    assert!(matches!(
        admit_authenticated_publication(
            &replacement_identity,
            &replacement_publication,
            Some(&publication)
        ),
        Err(KeyAuthorityError::NodeReplacementRequiresFence)
    ));
}

#[test]
fn durability_failure_never_advances_live_authority() {
    let store = FailingStore::default();
    let fail = store.fail.clone();
    let mut durable =
        DurableNodeKeyAuthority::create(authority(), store, FixedGenerator { next: 1 }).unwrap();
    fail.set(true);
    assert!(durable
        .prepare_epoch(Revision::new(1), Vec::new(), NOW, NOW + 10_000)
        .is_err());
    assert!(durable.authority().epochs().is_empty());
    assert_eq!(durable.authority().key_revision(), Revision::initial());
}

#[test]
fn epoch_capacity_and_lifetime_are_bounded_before_generation() {
    let mut authority = authority();
    let mut generator = FixedGenerator { next: 1 };
    assert!(matches!(
        authority.prepare_epoch(
            Revision::new(1),
            Vec::new(),
            NOW,
            NOW + MAX_KEY_LIFETIME_MS + 1,
            &mut generator,
        ),
        Err(KeyAuthorityError::InvalidLifetime)
    ));
    authority
        .prepare_epoch(Revision::new(1), Vec::new(), NOW, NOW + 10_000, &mut generator)
        .unwrap();
    assert!(matches!(
        authority.prepare_epoch(Revision::new(2), Vec::new(), NOW, NOW + 10_000, &mut generator),
        Err(KeyAuthorityError::EpochCapacityOrTransition)
    ));
}

fn prepared_rotation() -> NodeKeyAuthority {
    let mut authority = authority();
    let mut generator = FixedGenerator { next: 1 };
    let first = prepare_and_attest(&mut authority, &mut generator);
    authority
        .activate_epoch(first, Revision::new(4), NOW + 2, 1_000)
        .unwrap();
    authority
        .prepare_epoch(Revision::new(4), peers(), NOW + 90_000, NOW + 190_000, &mut generator)
        .unwrap();
    for peer in peers() {
        let ack = acknowledgement(&authority.epochs()[1], &peer, NOW + 90_001);
        authority
            .acknowledge_epoch(&peer, ack, NOW + 90_001)
            .unwrap();
    }
    authority
}

#[test]
fn clipped_drain_is_bounded_by_requested_window_and_original_key_lifetime() {
    let prepared = prepared_rotation();
    let expiry = NOW + 100_000;
    for now in [expiry - 5_000, expiry - 1, expiry, expiry + 1] {
        for window in [1, 500, 1_000, MAX_EPOCH_DRAIN_MS] {
            let mut authority = prepared.clone();
            let old_key = authority.epochs()[0].public_key();
            authority
                .activate_epoch(2, Revision::new(4), now, window)
                .unwrap();
            let deadline = expiry.min(now + window);
            let publication = authority.publication().unwrap();
            assert_eq!(publication.epochs[0].phase, KeyEpochPhase::Draining);
            assert_eq!(publication.epochs[0].drain_deadline_unix_ms, Some(deadline));
            assert_eq!(publication.epochs[0].valid_until_unix_ms, expiry);
            assert_eq!(publication.epochs[0].public_key.0, old_key.0);
            assert_eq!(publication.epochs[1].phase, KeyEpochPhase::Active);
            assert_eq!(publication.revoked_through_epoch, 0);
            assert_eq!(publication.retired_through_epoch, 0);
            let ready = if now >= deadline { Some(1) } else { None };
            assert_eq!(authority.drained_epoch_ready_for_retirement(now).unwrap(), ready);
        }
    }
}

#[test]
fn expiry_clipping_does_not_accept_invalid_requested_drain_windows() {
    for window in [0, MAX_EPOCH_DRAIN_MS + 1] {
        let mut authority = prepared_rotation();
        let before = authority.publication().unwrap();
        assert!(matches!(
            authority.activate_epoch(2, Revision::new(4), NOW + 100_001, window),
            Err(KeyAuthorityError::InvalidDrainWindow)
        ));
        assert!(authority.publication().unwrap().same_as(&before));
    }
}

#[test]
fn expiry_clipping_cannot_activate_unready_expired_or_foreign_topology_successors() {
    for (now, revision) in [
        (NOW + 190_000, Revision::new(4)),
        (NOW + 89_999, Revision::new(4)),
        (NOW + 100_001, Revision::new(5)),
    ] {
        let mut authority = prepared_rotation();
        let before = authority.publication().unwrap();
        assert!(matches!(
            authority.activate_epoch(2, revision, now, 1_000),
            Err(KeyAuthorityError::ActivationBarrierNotSatisfied)
        ));
        assert!(authority.publication().unwrap().same_as(&before));
    }
}

#[test]
fn expiry_capped_activation_keeps_original_durable_authority_on_write_failure() {
    let store = FailingStore::default();
    let fail = store.fail.clone();
    let writes = store.writes.clone();
    let mut durable =
        DurableNodeKeyAuthority::create(prepared_rotation(), store, FixedGenerator { next: 3 })
            .unwrap();
    let before = durable.authority().publication().unwrap();
    let written = writes.get();
    fail.set(true);
    assert!(matches!(
        durable.activate_epoch(2, Revision::new(4), NOW + 100_001, 1_000),
        Err(KeyAuthorityError::Storage(_))
    ));
    assert!(durable.authority().publication().unwrap().same_as(&before));
    assert_eq!(writes.get(), written);
    fail.set(false);
    durable
        .activate_epoch(2, Revision::new(4), NOW + 100_001, 1_000)
        .unwrap();
    let published = durable.authority().publication().unwrap();
    assert_eq!(published.epochs[0].drain_deadline_unix_ms, Some(NOW + 100_000));
    assert_eq!(published.epochs[1].phase, KeyEpochPhase::Active);
    assert_eq!(writes.get(), written + 1);
}

#[test]
fn publication_verifies_and_rejects_digest_tamper() {
    let mut authority = authority();
    let mut generator = FixedGenerator { next: 5 };
    prepare_and_attest(&mut authority, &mut generator);
    let publication = authority.publication().unwrap();
    publication.verify().unwrap();
    let mut tampered = publication.clone();
    tampered.next_epoch += 1;
    assert!(matches!(
        tampered.verify(),
        Err(KeyAuthorityError::InvalidPublication)
    ));
    assert_eq!(publication.epochs[0].public_key.0, authority.epochs()[0].public_key().0);
}

fn activated_authority() -> NodeKeyAuthority {
    let mut authority = authority();
    let mut generator = FixedGenerator { next: 1 };
    let epoch = prepare_and_attest(&mut authority, &mut generator);
    authority
        .activate_epoch(epoch, Revision::new(4), NOW + 2, 1_000)
        .unwrap();
    authority
}

#[test]
fn owner_only_checkpoint_round_trips_and_rejects_uid_reuse_and_tamper() {
    let authority = activated_authority();
    let document = PersistedAuthorityDocument::from_authority(&authority);
    let restored = document
        .clone()
        .into_authority("cluster-a", "worker-a", "node-uid-a")
        .unwrap();
    assert!(restored
        .publication()
        .unwrap()
        .same_as(&authority.publication().unwrap()));
    assert!(matches!(
        document
            .clone()
            .into_authority("cluster-a", "worker-a", "replacement-uid"),
        Err(KeyAuthorityError::NodeReplacementRequiresFence)
    ));
    let mut tampered = document.clone();
    tampered.next_epoch = 99;
    assert!(matches!(
        tampered.into_authority("cluster-a", "worker-a", "node-uid-a"),
        Err(KeyAuthorityError::CheckpointDigestMismatch)
    ));

    let mut flipped = document.clone();
    flipped.epochs[0].private_key[10] ^= 1;
    flipped.checkpoint_digest = flipped.calculate_digest();
    assert!(matches!(
        flipped.into_authority("cluster-a", "worker-a", "node-uid-a"),
        Err(KeyAuthorityError::InvalidDurableState)
    ));
}

#[test]
fn checkpoint_restores_every_field_and_secret() {
    let authority = activated_authority();
    let document = PersistedAuthorityDocument::from_authority(&authority);
    assert_eq!(document.checkpoint_digest, document.calculate_digest());
    assert_eq!(document.epochs.len(), authority.epochs().len());
    let restored = document
        .into_authority("cluster-a", "worker-a", "node-uid-a")
        .unwrap();
    assert_eq!(restored.epochs().len(), authority.epochs().len());
    for (a, b) in restored.epochs().iter().zip(authority.epochs().iter()) {
        assert_eq!(a.epoch(), b.epoch());
        assert_eq!(a.private_key_for_kernel(), b.private_key_for_kernel());
        assert_eq!(a.public_key().0, b.public_key().0);
        assert_eq!(a.phase(), b.phase());
    }
}

#[test]
fn checkpoint_rejects_unknown_schema_zero_secret_and_renamed_node() {
    let authority = activated_authority();
    let document = PersistedAuthorityDocument::from_authority(&authority);

    let mut future = document.clone();
    future.schema_version = 2;
    assert!(matches!(
        future.into_authority("cluster-a", "worker-a", "node-uid-a"),
        Err(KeyAuthorityError::UnsupportedSchema(2))
    ));

    let mut zeroed = document.clone();
    zeroed.epochs[0].private_key = [0u8; 32];
    zeroed.checkpoint_digest = zeroed.calculate_digest();
    assert!(matches!(
        zeroed.into_authority("cluster-a", "worker-a", "node-uid-a"),
        Err(KeyAuthorityError::InvalidPrivateKey)
    ));

    assert!(matches!(
        document
            .clone()
            .into_authority("cluster-b", "worker-a", "node-uid-a"),
        Err(KeyAuthorityError::NodeReplacementRequiresFence)
    ));
    assert!(matches!(
        document.into_authority("cluster-a", "worker-b", "node-uid-a"),
        Err(KeyAuthorityError::NodeReplacementRequiresFence)
    ));
}

#[test]
fn public_wire_shape_contains_no_private_material() {
    let mut authority = authority();
    let mut generator = FixedGenerator { next: 73 };
    prepare_and_attest(&mut authority, &mut generator);
    let publication = authority.publication().unwrap();
    let rendered = format!("{publication:?}");
    assert!(!rendered.to_ascii_lowercase().contains("private"));
    assert!(!rendered.contains("73, 73, 73"));
    assert_ne!(publication.epochs[0].public_key.0, [73; 32]);
}
