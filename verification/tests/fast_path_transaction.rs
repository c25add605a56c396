use unf_encryption::fast_path_transaction::{
    CausalCommitVector, CausalCommitVectorDigest, EncryptionFastPathDigest, FastPathMapRecoveryAction,
    FastPathMapTransaction, FastPathMapTransactionPhase, FastPathPublishedGeneration, FastPathTransactionError,
};
use unf_encryption::ids::Revision;

fn published(generation: u64, bank: u8, digest: u8) -> FastPathPublishedGeneration {
    FastPathPublishedGeneration {
        generation: Revision(generation),
        policy_revision: Revision(3),
        service_revision: Revision(4),
        egress_revision: Revision(5),
        bank,
        epoch_count: 1,
        decision_count: 2,
        transport_count: 1,
        path_count: 2,
        state_digest: EncryptionFastPathDigest([digest; 32]),
    }
}

fn sealed(mut vector: CausalCommitVector) -> CausalCommitVector {
    vector.vector_digest = vector.calculate_digest();
    vector
}

fn active_vector(generation: u64, bank: u8, digest: u8) -> CausalCommitVector {
    sealed(CausalCommitVector {
        schema_version: 2,
        published: published(generation, bank, digest),
        active_epoch: 7,
        draining_epoch: None,
        kernel_configuration_digests: vec![[1; 32], [2; 32]],
        vector_digest: CausalCommitVectorDigest([0; 32]),
    })
}

fn dormant_vector() -> CausalCommitVector {
    let mut p = published(2, 1, 9);
    p.epoch_count = 0;
    p.decision_count = 0;
    p.transport_count = 0;
    p.path_count = 0;
    sealed(CausalCommitVector {
        schema_version: 2,
        published: p,
        active_epoch: 0,
        draining_epoch: None,
        kernel_configuration_digests: Vec::new(),
        vector_digest: CausalCommitVectorDigest([0; 32]),
    })
}

#[test]
fn commit_vector_verifies_active_draining_and_dormant_forms() {
    assert_eq!(active_vector(2, 1, 9).verify(), Ok(()));
    assert_eq!(dormant_vector().verify(), Ok(()));
    let mut draining = active_vector(2, 1, 9);
    draining.draining_epoch = Some(6);
    draining.published.epoch_count = 2;
    let draining = sealed(draining);
    assert_eq!(draining.verify(), Ok(()));
}

#[test]
fn commit_vector_rejects_bad_epochs_order_zero_digest_and_tamper() {
    let invalid = Err(FastPathTransactionError::InvalidCommitVector);
    let mut v = active_vector(2, 1, 9);
    v.published.policy_revision = Revision(0);
    assert_eq!(sealed(v).verify(), invalid);

    let mut v = active_vector(2, 1, 9);
    v.draining_epoch = Some(7);
    v.published.epoch_count = 2;
    assert_eq!(sealed(v).verify(), invalid);

    let mut v = active_vector(2, 1, 9);
    v.draining_epoch = Some(6);
    assert_eq!(sealed(v).verify(), invalid);

    let mut v = active_vector(2, 1, 9);
    v.kernel_configuration_digests = vec![[2; 32], [1; 32]];
    assert_eq!(sealed(v).verify(), invalid);

    let mut v = active_vector(2, 1, 9);
    v.kernel_configuration_digests = vec![[0; 32], [1; 32]];
    assert_eq!(sealed(v).verify(), invalid);

    let mut v = dormant_vector();
    v.kernel_configuration_digests = vec![[1; 32]];
    assert_eq!(sealed(v).verify(), invalid);

    let mut v = active_vector(2, 1, 9);
    v.active_epoch = 8;
    assert_eq!(v.verify(), invalid);
}

#[test]
fn map_transaction_prepares_stages_commits_and_recovers() {
    let prior = published(1, 0, 8);
    let desired = active_vector(2, 1, 9);
    let mut tx = FastPathMapTransaction::begin(Revision(1), desired.clone(), Some(prior)).expect("begins");
    assert_eq!(tx.phase, FastPathMapTransactionPhase::Prepared);
    assert!(tx.staged_readback_digest.is_none());
    assert_eq!(tx.verify(), Ok(()));
    assert_eq!(tx.recover(Some(prior), None), Ok(FastPathMapRecoveryAction::ClearAndRestageInactive));

    tx.record_staged(&desired.published).expect("stages");
    assert_eq!(tx.phase, FastPathMapTransactionPhase::Staged);
    assert_eq!(tx.staged_readback_digest.map(|d| d.0), Some([9; 32]));
    assert_eq!(tx.verify(), Ok(()));
    let exact = Some(EncryptionFastPathDigest([9; 32]));
    assert_eq!(tx.recover(Some(prior), exact), Ok(FastPathMapRecoveryAction::ActivateDesired));
    assert_eq!(tx.recover(Some(desired.published), exact), Ok(FastPathMapRecoveryAction::CommitObservedDesired));

    tx.commit(&desired.published).expect("commits");
    assert_eq!(tx.phase, FastPathMapTransactionPhase::Committed);
    assert_eq!(tx.verify(), Ok(()));
    assert_eq!(tx.recover(Some(desired.published), exact), Ok(FastPathMapRecoveryAction::ReuseCommitted));
    assert_eq!(tx.recover(Some(prior), exact), Ok(FastPathMapRecoveryAction::RefuseUnknownState));
}

#[test]
fn map_transaction_begin_rejects_zero_revision_same_bank_and_stale_generation() {
    let invalid = Err(FastPathTransactionError::InvalidTransaction);
    let desired = active_vector(2, 1, 9);
    assert_eq!(FastPathMapTransaction::begin(Revision(0), desired.clone(), None).map(|t| t.phase), invalid);
    assert_eq!(
        FastPathMapTransaction::begin(Revision(1), desired.clone(), Some(published(1, 1, 8))).map(|t| t.phase),
        invalid
    );
    assert_eq!(
        FastPathMapTransaction::begin(Revision(1), desired.clone(), Some(published(2, 0, 8))).map(|t| t.phase),
        invalid
    );
    let mut tampered = desired.clone();
    tampered.active_epoch = 8;
    assert_eq!(
        FastPathMapTransaction::begin(Revision(1), tampered, None).map(|t| t.phase),
        Err(FastPathTransactionError::InvalidCommitVector)
    );
    let first = FastPathMapTransaction::begin(Revision(1), desired, None).expect("no prior");
    assert!(first.prior.is_none());
}

#[test]
fn map_transaction_rejects_foreign_readback_wrong_phase_and_tamper() {
    let desired = active_vector(2, 1, 9);
    let mut tx = FastPathMapTransaction::begin(Revision(4), desired.clone(), None).expect("begins");
    let foreign = published(2, 1, 7);
    assert_eq!(tx.record_staged(&foreign), Err(FastPathTransactionError::StagedReadbackMismatch));
    assert_eq!(tx.phase, FastPathMapTransactionPhase::Prepared);
    assert_eq!(tx.commit(&desired.published), Err(FastPathTransactionError::PublishedReadbackMismatch));
    tx.record_staged(&desired.published).expect("stages");
    assert_eq!(tx.record_staged(&desired.published), Err(FastPathTransactionError::StagedReadbackMismatch));
    assert_eq!(tx.commit(&foreign), Err(FastPathTransactionError::PublishedReadbackMismatch));

    let mut tampered = tx.clone();
    tampered.phase = FastPathMapTransactionPhase::Committed;
    assert_eq!(tampered.verify(), Err(FastPathTransactionError::InvalidTransaction));
    assert_eq!(tampered.recover(None, None), Err(FastPathTransactionError::InvalidTransaction));
    assert_eq!(tampered.commit(&desired.published), Err(FastPathTransactionError::InvalidTransaction));

    let mut tampered = tx.clone();
    tampered.desired.active_epoch = 8;
    assert_eq!(tampered.verify(), Err(FastPathTransactionError::InvalidCommitVector));
}

#[test]
fn map_transaction_rolls_back_only_with_prior_active_and_target_absent() {
    let prior = published(1, 0, 8);
    let desired = active_vector(2, 1, 9);
    let mut tx = FastPathMapTransaction::begin(Revision(2), desired.clone(), Some(prior)).expect("begins");
    tx.record_staged(&desired.published).expect("stages");
    assert_eq!(tx.record_rollback(Some(desired.published), true), Err(FastPathTransactionError::RollbackMismatch));
    assert_eq!(tx.record_rollback(Some(prior), false), Err(FastPathTransactionError::RollbackMismatch));
    assert_eq!(tx.phase, FastPathMapTransactionPhase::Staged);
    tx.record_rollback(Some(prior), true).expect("rolls back");
    assert_eq!(tx.phase, FastPathMapTransactionPhase::RolledBack);
    assert!(tx.staged_readback_digest.is_none());
    assert_eq!(tx.verify(), Ok(()));
    assert_eq!(tx.recover(Some(prior), None), Ok(FastPathMapRecoveryAction::RollbackComplete));
    assert_eq!(
        tx.recover(Some(prior), Some(EncryptionFastPathDigest([9; 32]))),
        Ok(FastPathMapRecoveryAction::RefuseUnknownState)
    );
    assert_eq!(tx.record_rollback(Some(prior), true), Err(FastPathTransactionError::RollbackMismatch));
    assert_eq!(tx.record_staged(&desired.published), Err(FastPathTransactionError::StagedReadbackMismatch));
}
