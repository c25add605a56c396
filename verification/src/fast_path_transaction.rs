//! Crash-recoverable activation contract for encryption fast-path map banks.
//!
//! A map transaction records durable intent around the one map-config pointer
//! flip: it is prepared before any inactive-bank write, staged after exact
//! inactive-bank readback, committed after the published config and bank
//! read back as desired, or rolled back while the prior config is still
//! authoritative. Recovery after a restart picks one deterministic action
//! from the durable intent and what is observed.

use vstd::prelude::*;
use crate::digest::{
    all_zero, bytes32_eq, bytes32_is_zero, bytes32_lt, bytes_lt, opt_raw_bytes, opt_u64_bytes, push_opt_raw32,
    push_opt_u64, push_raw32, push_text, push_u16, push_u32, push_u64, push_u8, raw_bytes, sha256, sha256_spec,
    text_bytes, u16_bytes, u32_bytes, u64_bytes, u8_bytes,
};
use crate::ids::Revision;

verus! {

pub const CAUSAL_COMMIT_VECTOR_SCHEMA_VERSION: u16 = 2;

pub const FAST_PATH_MAP_TRANSACTION_SCHEMA_VERSION: u16 = 2;

pub const COMMIT_VECTOR_DIGEST_DOMAIN: &'static str = "unf.encryption-causal-commit-vector.v2";

pub const MAP_TRANSACTION_DIGEST_DOMAIN: &'static str = "unf.encryption-map-transaction.v2";

/// The digest of one complete lowered fast-path map bank.
#[derive(Clone, Copy, Debug)]
pub struct EncryptionFastPathDigest(pub [u8; 32]);

/// Serializable commitment to one complete bank. This is deliberately not a
/// substitute for map readback; recovery must supply the observed digest.
#[derive(Clone, Copy, Debug)]
pub struct FastPathPublishedGeneration {
    pub generation: Revision,
    pub policy_revision: Revision,
    pub service_revision: Revision,
    pub egress_revision: Revision,
    pub bank: u8,
    pub epoch_count: u8,
    pub decision_count: u32,
    pub transport_count: u32,
    pub path_count: u32,
    pub state_digest: EncryptionFastPathDigest,
}

#[derive(Clone, Copy, Debug)]
pub struct CausalCommitVectorDigest(pub [u8; 32]);

/// Cross-domain activation proof. One digest binds the map generation to all
/// distinct committed kernel configurations and its exact zero-to-two-epoch
/// state. Zero epochs is the explicit authority-free quiescent state.
#[derive(Clone, Debug)]
pub struct CausalCommitVector {
    pub schema_version: u16,
    pub published: FastPathPublishedGeneration,
    pub active_epoch: u64,
    pub draining_epoch: Option<u64>,
    pub kernel_configuration_digests: Vec<[u8; 32]>,
    pub vector_digest: CausalCommitVectorDigest,
}

#[derive(Clone, Copy, Debug, PartialEq, Eq, Structural)]
pub enum FastPathMapTransactionPhase {
    Prepared,
    Staged,
    Committed,
    RolledBack,
}

#[derive(Clone, Copy, Debug)]
pub struct FastPathMapTransactionDigest(pub [u8; 32]);

/// Durable intent around the one map-config pointer flip. Map entry writes are
/// performed by the platform adapter, but every crash boundary is total here.
#[derive(Clone, Debug)]
pub struct FastPathMapTransaction {
    pub schema_version: u16,
    pub transaction_revision: Revision,
    pub prior: Option<FastPathPublishedGeneration>,
    pub desired: CausalCommitVector,
    pub phase: FastPathMapTransactionPhase,
    pub staged_readback_digest: Option<EncryptionFastPathDigest>,
    pub transaction_digest: FastPathMapTransactionDigest,
}

#[derive(Clone, Copy, Debug, PartialEq, Eq, Structural)]
pub enum FastPathMapRecoveryAction {
    ClearAndRestageInactive,
    ActivateDesired,
    CommitObservedDesired,
    ReuseCommitted,
    RollbackComplete,
    RefuseUnknownState,
}

#[derive(Clone, Copy, Debug, PartialEq, Eq, Structural)]
pub enum FastPathTransactionError {
    InvalidEpochFrontier,
    InvalidKernelCommitment,
    InvalidCommitVector,
    InvalidTransaction,
    InvalidMapCheckpoint,
    StagedReadbackMismatch,
    PublishedReadbackMismatch,
    RollbackMismatch,
}

// ---------------------------------------------------------------------------
// Canonical encodings and digests
// ---------------------------------------------------------------------------

pub open spec fn published_bytes(p: FastPathPublishedGeneration) -> Seq<u8> {
    u64_bytes(p.generation.0) + u64_bytes(p.policy_revision.0) + u64_bytes(p.service_revision.0) + u64_bytes(
        p.egress_revision.0,
    ) + u8_bytes(p.bank) + u8_bytes(p.epoch_count) + u32_bytes(p.decision_count) + u32_bytes(p.transport_count)
        + u32_bytes(p.path_count) + raw_bytes(p.state_digest.0@)
}

pub open spec fn opt_published_bytes(o: Option<FastPathPublishedGeneration>) -> Seq<u8> {
    match o {
        Some(p) => seq![1u8] + published_bytes(p),
        None => seq![0u8],
    }
}

pub open spec fn concat_digests(v: Seq<[u8; 32]>) -> Seq<u8>
    decreases v.len(),
{
    if v.len() == 0 {
        Seq::empty()
    } else {
        concat_digests(v.drop_last()) + v.last()@
    }
}

/// A length-prefixed list of 32-byte digests.
pub open spec fn digests_bytes(v: Seq<[u8; 32]>) -> Seq<u8> {
    u64_bytes(v.len() as u64) + concat_digests(v)
}

/// Everything a commit vector commits to but its own digest.
pub open spec fn vector_material(v: CausalCommitVector) -> Seq<u8> {
    u16_bytes(v.schema_version) + published_bytes(v.published) + u64_bytes(v.active_epoch) + opt_u64_bytes(
        v.draining_epoch,
    ) + digests_bytes(v.kernel_configuration_digests@)
}

pub open spec fn vector_digest_spec(v: CausalCommitVector) -> Seq<u8> {
    sha256_spec(text_bytes(COMMIT_VECTOR_DIGEST_DOMAIN@) + vector_material(v))
}

pub open spec fn phase_code(p: FastPathMapTransactionPhase) -> u8 {
    match p {
        FastPathMapTransactionPhase::Prepared => 0,
        FastPathMapTransactionPhase::Staged => 1,
        FastPathMapTransactionPhase::Committed => 2,
        FastPathMapTransactionPhase::RolledBack => 3,
    }
}

pub open spec fn opt_fast_path_digest(o: Option<EncryptionFastPathDigest>) -> Option<Seq<u8>> {
    match o {
        Some(d) => Some(d.0@),
        None => None,
    }
}

/// Everything a transaction commits to but its own digest.
pub open spec fn transaction_material(t: FastPathMapTransaction) -> Seq<u8> {
    u16_bytes(t.schema_version) + u64_bytes(t.transaction_revision.0) + opt_published_bytes(t.prior)
        + vector_material(t.desired) + raw_bytes(t.desired.vector_digest.0@) + u8_bytes(phase_code(t.phase))
        + opt_raw_bytes(opt_fast_path_digest(t.staged_readback_digest))
}

pub open spec fn transaction_digest_spec(t: FastPathMapTransaction) -> Seq<u8> {
    sha256_spec(text_bytes(MAP_TRANSACTION_DIGEST_DOMAIN@) + transaction_material(t))
}

fn push_published(out: &mut Vec<u8>, p: &FastPathPublishedGeneration)
    ensures
        final(out)@ == old(out)@ + published_bytes(*p),
{
    push_u64(out, p.generation.0);
    push_u64(out, p.policy_revision.0);
    push_u64(out, p.service_revision.0);
    push_u64(out, p.egress_revision.0);
    push_u8(out, p.bank);
    push_u8(out, p.epoch_count);
    push_u32(out, p.decision_count);
    push_u32(out, p.transport_count);
    push_u32(out, p.path_count);
    push_raw32(out, &p.state_digest.0);
    assert(final(out)@ =~= old(out)@ + published_bytes(*p));
}

fn push_opt_published(out: &mut Vec<u8>, o: &Option<FastPathPublishedGeneration>)
    ensures
        final(out)@ == old(out)@ + opt_published_bytes(*o),
{
    match o {
        Some(p) => {
            out.push(1u8);
            push_published(out, p);
        },
        None => {
            out.push(0u8);
        },
    }
    assert(final(out)@ =~= old(out)@ + opt_published_bytes(*o));
}

fn push_digests(out: &mut Vec<u8>, v: &Vec<[u8; 32]>)
    ensures
        final(out)@ == old(out)@ + digests_bytes(v@),
{
    let ghost start = out@;
    push_u64(out, v.len() as u64);
    let mut i: usize = 0;
    while i < v.len()
        invariant
            i <= v@.len(),
            out@ == start + u64_bytes(v@.len() as u64) + concat_digests(v@.take(i as int)),
        decreases v@.len() - i,
    {
        push_raw32(out, &v[i]);
        proof {
            assert(v@.take(i + 1).drop_last() =~= v@.take(i as int));
            assert(out@ =~= start + u64_bytes(v@.len() as u64) + concat_digests(v@.take(i + 1)));
        }
        i = i + 1;
    }
    assert(v@.take(i as int) =~= v@);
}

fn push_vector_material(out: &mut Vec<u8>, v: &CausalCommitVector)
    ensures
        final(out)@ == old(out)@ + vector_material(*v),
{
    push_u16(out, v.schema_version);
    push_published(out, &v.published);
    push_u64(out, v.active_epoch);
    push_opt_u64(out, v.draining_epoch);
    push_digests(out, &v.kernel_configuration_digests);
    assert(final(out)@ =~= old(out)@ + vector_material(*v));
}

// ---------------------------------------------------------------------------
// Equality of published records
// ---------------------------------------------------------------------------

/// Whether two published records are the same record.
pub fn published_eq(a: &FastPathPublishedGeneration, b: &FastPathPublishedGeneration) -> (r: bool)
    ensures
        r == (*a == *b),
{
    let same_digest = bytes32_eq(&a.state_digest.0, &b.state_digest.0);
    let r = a.generation.0 == b.generation.0 && a.policy_revision.0 == b.policy_revision.0
        && a.service_revision.0 == b.service_revision.0 && a.egress_revision.0 == b.egress_revision.0
        && a.bank == b.bank && a.epoch_count == b.epoch_count && a.decision_count == b.decision_count
        && a.transport_count == b.transport_count && a.path_count == b.path_count && same_digest;
    proof {
        if r {
            assert(a.state_digest.0 =~= b.state_digest.0);
        }
    }
    r
}

/// Whether two optional published records are the same.
pub fn opt_published_eq(a: &Option<FastPathPublishedGeneration>, b: &Option<FastPathPublishedGeneration>) -> (r:
    bool)
    ensures
        r == (*a == *b),
{
    match (a, b) {
        (Some(x), Some(y)) => published_eq(x, y),
        (None, None) => true,
        _ => false,
    }
}

// ---------------------------------------------------------------------------
// Causal commit vectors
// ---------------------------------------------------------------------------

/// Adjacent kernel configuration digests ascend at position `i`.
pub open spec fn digests_ascend_at(v: Seq<[u8; 32]>, i: int) -> bool {
    bytes_lt(v[i]@, v[i + 1]@)
}

/// The vector commits to no epoch and no map entry.
pub open spec fn vector_dormant_ok(v: CausalCommitVector) -> bool {
    &&& v.published.decision_count == 0
    &&& v.published.transport_count == 0
    &&& v.published.path_count == 0
    &&& v.active_epoch == 0
    &&& v.draining_epoch is None
    &&& v.kernel_configuration_digests@.len() == 0
}

/// The vector commits to one active epoch, at most one other draining
/// epoch, transports, and kernel configurations.
pub open spec fn vector_active_ok(v: CausalCommitVector) -> bool {
    &&& v.published.transport_count != 0
    &&& v.active_epoch != 0
    &&& v.draining_epoch != Some(0u64)
    &&& v.draining_epoch != Some(v.active_epoch)
    &&& v.published.epoch_count == (if v.draining_epoch is Some { 2int } else { 1int })
    &&& v.kernel_configuration_digests@.len() != 0
}

/// What `CausalCommitVector::verify` accepts.
pub open spec fn vector_ok(v: CausalCommitVector) -> bool {
    let d = v.kernel_configuration_digests@;
    &&& v.schema_version == CAUSAL_COMMIT_VECTOR_SCHEMA_VERSION
    &&& v.published.generation.0 != 0
    &&& v.published.policy_revision.0 != 0
    &&& v.published.service_revision.0 != 0
    &&& v.published.egress_revision.0 != 0
    &&& v.published.epoch_count <= 2
    &&& if v.published.epoch_count == 0 { vector_dormant_ok(v) } else { vector_active_ok(v) }
    &&& forall|i: int| 0 <= i < d.len() - 1 ==> #[trigger] digests_ascend_at(d, i)
    &&& forall|i: int| 0 <= i < d.len() ==> !all_zero(#[trigger] d[i]@)
    &&& v.vector_digest.0@ == vector_digest_spec(v)
}

fn digests_canonical(d: &Vec<[u8; 32]>) -> (r: bool)
    ensures
        r == ((forall|i: int| 0 <= i < d@.len() - 1 ==> #[trigger] digests_ascend_at(d@, i)) && (forall|i: int|
            0 <= i < d@.len() ==> !all_zero(#[trigger] d@[i]@))),
{
    let mut i: usize = 0;
    while i < d.len()
        invariant
            i <= d@.len(),
            forall|j: int| 0 <= j < i && j < d@.len() - 1 ==> #[trigger] digests_ascend_at(d@, j),
            forall|j: int| 0 <= j < i ==> !all_zero(#[trigger] d@[j]@),
        decreases d@.len() - i,
    {
        if bytes32_is_zero(&d[i]) {
            return false;
        }
        if i + 1 < d.len() && !bytes32_lt(&d[i], &d[i + 1]) {
            assert(!digests_ascend_at(d@, i as int));
            return false;
        }
        i = i + 1;
    }
    true
}

impl CausalCommitVector {
    /// The digest of everything the vector commits to but its own digest.
    pub fn calculate_digest(&self) -> (d: CausalCommitVectorDigest)
        ensures
            d.0@ == vector_digest_spec(*self),
    {
        let mut m: Vec<u8> = Vec::new();
        push_text(&mut m, COMMIT_VECTOR_DIGEST_DOMAIN);
        push_vector_material(&mut m, self);
        assert(m@ =~= text_bytes(COMMIT_VECTOR_DIGEST_DOMAIN@) + vector_material(*self));
        CausalCommitVectorDigest(sha256(&m))
    }

    /// Replays the vector and its canonical epoch/kernel commitments.
    ///
    /// Rejects schema, revision, count, epoch, ordering, zero-digest, or
    /// digest mutation.
    pub fn verify(&self) -> (r: Result<(), FastPathTransactionError>)
        ensures
            r is Ok <==> vector_ok(*self),
            r is Err ==> r == Err::<(), FastPathTransactionError>(FastPathTransactionError::InvalidCommitVector),
    {
        let p = &self.published;
        let dormant = p.epoch_count == 0;
        let invalid_dormant = dormant && (p.decision_count != 0 || p.transport_count != 0 || p.path_count != 0
            || self.active_epoch != 0 || self.draining_epoch.is_some() || self.kernel_configuration_digests.len()
            != 0);
        let draining_zero = match self.draining_epoch {
            Some(e) => e == 0,
            None => false,
        };
        let draining_active = match self.draining_epoch {
            Some(e) => e == self.active_epoch,
            None => false,
        };
        let expected_epochs: u8 = if self.draining_epoch.is_some() {
            2
        } else {
            1
        };
        let invalid_active = !dormant && (p.transport_count == 0 || self.active_epoch == 0 || draining_zero
            || draining_active || p.epoch_count != expected_epochs || self.kernel_configuration_digests.len() == 0);
        if self.schema_version != CAUSAL_COMMIT_VECTOR_SCHEMA_VERSION || p.generation.0 == 0
            || p.policy_revision.0 == 0 || p.service_revision.0 == 0 || p.egress_revision.0 == 0 || p.epoch_count
            > 2 || invalid_dormant || invalid_active || !digests_canonical(&self.kernel_configuration_digests) {
            return Err(FastPathTransactionError::InvalidCommitVector);
        }
        let d = self.calculate_digest();
        if !bytes32_eq(&self.vector_digest.0, &d.0) {
            return Err(FastPathTransactionError::InvalidCommitVector);
        }
        Ok(())
    }
}

// ---------------------------------------------------------------------------
// Map transactions
// ---------------------------------------------------------------------------

/// What `FastPathMapTransaction::verify` accepts beyond a valid vector.
pub open spec fn transaction_shape_ok(t: FastPathMapTransaction) -> bool {
    &&& t.schema_version == FAST_PATH_MAP_TRANSACTION_SCHEMA_VERSION
    &&& t.transaction_revision.0 != 0
    &&& t.prior matches Some(p) ==> p.bank != t.desired.published.bank && p.generation.0
        < t.desired.published.generation.0
    &&& (t.phase == FastPathMapTransactionPhase::Staged || t.phase == FastPathMapTransactionPhase::Committed)
        == t.staged_readback_digest is Some
    &&& t.staged_readback_digest matches Some(d) ==> d.0@ == t.desired.published.state_digest.0@
    &&& t.transaction_digest.0@ == transaction_digest_spec(t)
}

/// What `FastPathMapTransaction::verify` reports, if anything.
pub open spec fn transaction_error(t: FastPathMapTransaction) -> Option<FastPathTransactionError> {
    if !vector_ok(t.desired) {
        Some(FastPathTransactionError::InvalidCommitVector)
    } else if !transaction_shape_ok(t) {
        Some(FastPathTransactionError::InvalidTransaction)
    } else {
        None
    }
}

/// The transaction replays.
pub open spec fn transaction_ok(t: FastPathMapTransaction) -> bool {
    transaction_error(t) is None
}

/// The restart action for a transaction, the observed active config, and
/// the observed target-bank digest.
pub open spec fn recovery_action(
    t: FastPathMapTransaction,
    observed_active: Option<FastPathPublishedGeneration>,
    observed_target_digest: Option<EncryptionFastPathDigest>,
) -> FastPathMapRecoveryAction {
    let target_exact = observed_target_digest matches Some(d) && d.0@ == t.desired.published.state_digest.0@;
    let active_is_prior = observed_active == t.prior;
    let active_is_desired = observed_active == Some(t.desired.published);
    let prepared = t.phase == FastPathMapTransactionPhase::Prepared;
    let staged = t.phase == FastPathMapTransactionPhase::Staged;
    if prepared && active_is_prior {
        FastPathMapRecoveryAction::ClearAndRestageInactive
    } else if staged && active_is_prior && target_exact {
        FastPathMapRecoveryAction::ActivateDesired
    } else if (prepared || staged) && active_is_desired && target_exact {
        FastPathMapRecoveryAction::CommitObservedDesired
    } else if t.phase == FastPathMapTransactionPhase::Committed && active_is_desired && target_exact {
        FastPathMapRecoveryAction::ReuseCommitted
    } else if t.phase == FastPathMapTransactionPhase::RolledBack && active_is_prior && observed_target_digest is None {
        FastPathMapRecoveryAction::RollbackComplete
    } else {
        FastPathMapRecoveryAction::RefuseUnknownState
    }
}

/// `t` is `old` moved to `phase` with the staged digest `staged`, its
/// digest sealed again, and nothing else changed.
pub open spec fn moved_to(
    t: FastPathMapTransaction,
    old: FastPathMapTransaction,
    phase: FastPathMapTransactionPhase,
    staged: Option<EncryptionFastPathDigest>,
) -> bool {
    &&& t.schema_version == old.schema_version
    &&& t.transaction_revision == old.transaction_revision
    &&& t.prior == old.prior
    &&& t.desired == old.desired
    &&& t.phase == phase
    &&& t.staged_readback_digest == staged
    &&& t.transaction_digest.0@ == transaction_digest_spec(t)
}

impl FastPathMapTransaction {
    /// The digest of everything the transaction commits to but its own
    /// digest.
    fn calculate_digest(&self) -> (d: FastPathMapTransactionDigest)
        ensures
            d.0@ == transaction_digest_spec(*self),
    {
        let mut m: Vec<u8> = Vec::new();
        push_text(&mut m, MAP_TRANSACTION_DIGEST_DOMAIN);
        push_u16(&mut m, self.schema_version);
        push_u64(&mut m, self.transaction_revision.0);
        push_opt_published(&mut m, &self.prior);
        push_vector_material(&mut m, &self.desired);
        push_raw32(&mut m, &self.desired.vector_digest.0);
        let code: u8 = match self.phase {
            FastPathMapTransactionPhase::Prepared => 0,
            FastPathMapTransactionPhase::Staged => 1,
            FastPathMapTransactionPhase::Committed => 2,
            FastPathMapTransactionPhase::RolledBack => 3,
        };
        push_u8(&mut m, code);
        let staged: Option<[u8; 32]> = match self.staged_readback_digest {
            Some(d) => Some(d.0),
            None => None,
        };
        push_opt_raw32(&mut m, &staged);
        assert(m@ =~= text_bytes(MAP_TRANSACTION_DIGEST_DOMAIN@) + transaction_material(*self));
        FastPathMapTransactionDigest(sha256(&m))
    }

    /// Persists intent before any inactive-bank mutation.
    ///
    /// Rejects invalid vectors, nonmonotonic generations, or staging into
    /// the currently active bank.
    pub fn begin(
        transaction_revision: Revision,
        desired: CausalCommitVector,
        prior: Option<FastPathPublishedGeneration>,
    ) -> (r: Result<Self, FastPathTransactionError>)
        ensures
            !vector_ok(desired) ==> r == Err::<Self, FastPathTransactionError>(
                FastPathTransactionError::InvalidCommitVector,
            ),
            vector_ok(desired) && (transaction_revision.0 == 0 || (prior matches Some(p) && (desired.published.bank
                == p.bank || desired.published.generation.0 <= p.generation.0))) ==> r == Err::<
                Self,
                FastPathTransactionError,
            >(FastPathTransactionError::InvalidTransaction),
            r matches Ok(t) ==> {
                &&& t.schema_version == FAST_PATH_MAP_TRANSACTION_SCHEMA_VERSION
                &&& t.transaction_revision == transaction_revision
                &&& t.prior == prior
                &&& t.desired == desired
                &&& t.phase == FastPathMapTransactionPhase::Prepared
                &&& t.staged_readback_digest is None
                &&& t.transaction_digest.0@ == transaction_digest_spec(t)
                &&& transaction_ok(t)
            },
            vector_ok(desired) && transaction_revision.0 != 0 && !(prior matches Some(p) && (desired.published.bank
                == p.bank || desired.published.generation.0 <= p.generation.0)) ==> r is Ok,
    {
        desired.verify()?;
        let monotonic_violation = match &prior {
            Some(p) => desired.published.bank == p.bank || desired.published.generation.0 <= p.generation.0,
            None => false,
        };
        if transaction_revision.0 == 0 || monotonic_violation {
            return Err(FastPathTransactionError::InvalidTransaction);
        }
        let mut transaction = FastPathMapTransaction {
            schema_version: FAST_PATH_MAP_TRANSACTION_SCHEMA_VERSION,
            transaction_revision,
            prior,
            desired,
            phase: FastPathMapTransactionPhase::Prepared,
            staged_readback_digest: None,
            transaction_digest: FastPathMapTransactionDigest([0u8; 32]),
        };
        let d = transaction.calculate_digest();
        transaction.transaction_digest = d;
        Ok(transaction)
    }

    /// Replays schema, nested vector, phase invariants, and digest.
    pub fn verify(&self) -> (r: Result<(), FastPathTransactionError>)
        ensures
            match transaction_error(*self) {
                Some(e) => r == Err::<(), FastPathTransactionError>(e),
                None => r is Ok,
            },
    {
        self.desired.verify()?;
        let bad_prior = match &self.prior {
            Some(p) => p.bank == self.desired.published.bank || p.generation.0 >= self.desired.published.generation.0,
            None => false,
        };
        let staged_phase = self.phase == FastPathMapTransactionPhase::Staged || self.phase
            == FastPathMapTransactionPhase::Committed;
        let bad_staged = match &self.staged_readback_digest {
            Some(d) => !bytes32_eq(&d.0, &self.desired.published.state_digest.0),
            None => false,
        };
        if self.schema_version != FAST_PATH_MAP_TRANSACTION_SCHEMA_VERSION || self.transaction_revision.0 == 0
            || bad_prior || staged_phase != self.staged_readback_digest.is_some() || bad_staged {
            return Err(FastPathTransactionError::InvalidTransaction);
        }
        let d = self.calculate_digest();
        if !bytes32_eq(&self.transaction_digest.0, &d.0) {
            return Err(FastPathTransactionError::InvalidTransaction);
        }
        Ok(())
    }

    /// Records exact inactive-bank readback, given as the published record
    /// of the readback, before the config pointer may move.
    ///
    /// Rejects wrong phase, corrupt transaction, or any desired/readback
    /// drift.
    pub fn record_staged(&mut self, readback: &FastPathPublishedGeneration) -> (r: Result<(), FastPathTransactionError>)
        ensures
            transaction_error(*old(self)) matches Some(e) ==> r == Err::<(), FastPathTransactionError>(e),
            r is Err ==> *final(self) == *old(self),
            transaction_ok(*old(self)) ==> (r is Ok <==> (old(self).phase == FastPathMapTransactionPhase::Prepared
                && *readback == old(self).desired.published)),
            transaction_ok(*old(self)) && r is Err ==> r == Err::<(), FastPathTransactionError>(
                FastPathTransactionError::StagedReadbackMismatch,
            ),
            r is Ok ==> moved_to(
                *final(self),
                *old(self),
                FastPathMapTransactionPhase::Staged,
                Some(readback.state_digest),
            ) && transaction_ok(*final(self)),
    {
        self.verify()?;
        if self.phase != FastPathMapTransactionPhase::Prepared || !published_eq(readback, &self.desired.published) {
            return Err(FastPathTransactionError::StagedReadbackMismatch);
        }
        self.phase = FastPathMapTransactionPhase::Staged;
        self.staged_readback_digest = Some(readback.state_digest);
        let d = self.calculate_digest();
        self.transaction_digest = d;
        Ok(())
    }

    /// Commits only after the published config and complete bank read back
    /// as the desired generation.
    ///
    /// Rejects wrong phase, corruption, or partial/mixed observed state.
    pub fn commit(&mut self, observed: &FastPathPublishedGeneration) -> (r: Result<(), FastPathTransactionError>)
        ensures
            transaction_error(*old(self)) matches Some(e) ==> r == Err::<(), FastPathTransactionError>(e),
            r is Err ==> *final(self) == *old(self),
            transaction_ok(*old(self)) ==> (r is Ok <==> (old(self).phase == FastPathMapTransactionPhase::Staged
                && *observed == old(self).desired.published && (old(self).staged_readback_digest matches Some(d)
                && d.0@ == observed.state_digest.0@))),
            transaction_ok(*old(self)) && r is Err ==> r == Err::<(), FastPathTransactionError>(
                FastPathTransactionError::PublishedReadbackMismatch,
            ),
            r is Ok ==> moved_to(
                *final(self),
                *old(self),
                FastPathMapTransactionPhase::Committed,
                old(self).staged_readback_digest,
            ) && transaction_ok(*final(self)),
    {
        self.verify()?;
        let staged_matches = match &self.staged_readback_digest {
            Some(d) => bytes32_eq(&d.0, &observed.state_digest.0),
            None => false,
        };
        if self.phase != FastPathMapTransactionPhase::Staged || !published_eq(observed, &self.desired.published)
            || !staged_matches {
            return Err(FastPathTransactionError::PublishedReadbackMismatch);
        }
        self.phase = FastPathMapTransactionPhase::Committed;
        let d = self.calculate_digest();
        self.transaction_digest = d;
        Ok(())
    }

    /// Records cleanup only when the prior config is still authoritative and
    /// the inactive target bank is positively absent.
    ///
    /// Rejects wrong phase, active-config drift, or incomplete cleanup.
    pub fn record_rollback(
        &mut self,
        observed_active: Option<FastPathPublishedGeneration>,
        target_bank_absent: bool,
    ) -> (r: Result<(), FastPathTransactionError>)
        ensures
            transaction_error(*old(self)) matches Some(e) ==> r == Err::<(), FastPathTransactionError>(e),
            r is Err ==> *final(self) == *old(self),
            transaction_ok(*old(self)) ==> (r is Ok <==> ((old(self).phase == FastPathMapTransactionPhase::Prepared
                || old(self).phase == FastPathMapTransactionPhase::Staged) && observed_active == old(self).prior
                && target_bank_absent)),
            transaction_ok(*old(self)) && r is Err ==> r == Err::<(), FastPathTransactionError>(
                FastPathTransactionError::RollbackMismatch,
            ),
            r is Ok ==> moved_to(*final(self), *old(self), FastPathMapTransactionPhase::RolledBack, None)
                && transaction_ok(*final(self)),
    {
        self.verify()?;
        let rollable = self.phase == FastPathMapTransactionPhase::Prepared || self.phase
            == FastPathMapTransactionPhase::Staged;
        if !rollable || !opt_published_eq(&observed_active, &self.prior) || !target_bank_absent {
            return Err(FastPathTransactionError::RollbackMismatch);
        }
        self.phase = FastPathMapTransactionPhase::RolledBack;
        self.staged_readback_digest = None;
        let d = self.calculate_digest();
        self.transaction_digest = d;
        Ok(())
    }

    /// Selects one deterministic restart action from durable intent, the
    /// active config, and exact target-bank readback.
    ///
    /// Rejects a corrupt transaction before interpreting observations.
    pub fn recover(
        &self,
        observed_active: Option<FastPathPublishedGeneration>,
        observed_target_digest: Option<EncryptionFastPathDigest>,
    ) -> (r: Result<FastPathMapRecoveryAction, FastPathTransactionError>)
        ensures
            match transaction_error(*self) {
                Some(e) => r == Err::<FastPathMapRecoveryAction, FastPathTransactionError>(e),
                None => r == Ok::<FastPathMapRecoveryAction, FastPathTransactionError>(
                    recovery_action(*self, observed_active, observed_target_digest),
                ),
            },
            r == Ok::<FastPathMapRecoveryAction, FastPathTransactionError>(
                FastPathMapRecoveryAction::ActivateDesired,
            ) ==> self.phase == FastPathMapTransactionPhase::Staged && observed_active == self.prior
                && (observed_target_digest matches Some(d) && d.0@ == self.desired.published.state_digest.0@),
    {
        self.verify()?;
        let target_exact = match &observed_target_digest {
            Some(d) => bytes32_eq(&d.0, &self.desired.published.state_digest.0),
            None => false,
        };
        let active_is_prior = opt_published_eq(&observed_active, &self.prior);
        let desired_published = Some(self.desired.published);
        let active_is_desired = opt_published_eq(&observed_active, &desired_published);
        let prepared = self.phase == FastPathMapTransactionPhase::Prepared;
        let staged = self.phase == FastPathMapTransactionPhase::Staged;
        let action = if prepared && active_is_prior {
            FastPathMapRecoveryAction::ClearAndRestageInactive
        } else if staged && active_is_prior && target_exact {
            FastPathMapRecoveryAction::ActivateDesired
        } else if (prepared || staged) && active_is_desired && target_exact {
            FastPathMapRecoveryAction::CommitObservedDesired
        } else if self.phase == FastPathMapTransactionPhase::Committed && active_is_desired && target_exact {
            FastPathMapRecoveryAction::ReuseCommitted
        } else if self.phase == FastPathMapTransactionPhase::RolledBack && active_is_prior
            && observed_target_digest.is_none() {
            FastPathMapRecoveryAction::RollbackComplete
        } else {
            FastPathMapRecoveryAction::RefuseUnknownState
        };
        Ok(action)
    }
}

/// What a restart can observe at a crash boundary of the protocol: before
/// the pointer flip the prior config is active, after it the desired one
/// with the exact target bank, and after a rollback the prior config with
/// the target bank gone.
pub open spec fn crash_boundary_observation(
    t: FastPathMapTransaction,
    observed_active: Option<FastPathPublishedGeneration>,
    observed_target_digest: Option<EncryptionFastPathDigest>,
) -> bool {
    let target_exact = observed_target_digest matches Some(d) && d.0@ == t.desired.published.state_digest.0@;
    let flipped = observed_active == Some(t.desired.published) && target_exact;
    match t.phase {
        FastPathMapTransactionPhase::Prepared => observed_active == t.prior || flipped,
        FastPathMapTransactionPhase::Staged => observed_active == t.prior && target_exact || flipped,
        FastPathMapTransactionPhase::Committed => flipped,
        FastPathMapTransactionPhase::RolledBack => observed_active == t.prior && observed_target_digest is None,
    }
}

/// Every crash boundary is total: for a transaction that replays, whatever
/// a restart observes at a boundary of the protocol selects an action other
/// than refusal, and it resumes toward the recorded intent.
pub proof fn lemma_recovery_total(
    t: FastPathMapTransaction,
    observed_active: Option<FastPathPublishedGeneration>,
    observed_target_digest: Option<EncryptionFastPathDigest>,
)
    requires
        transaction_ok(t),
        crash_boundary_observation(t, observed_active, observed_target_digest),
    ensures
        recovery_action(t, observed_active, observed_target_digest) != FastPathMapRecoveryAction::RefuseUnknownState,
        t.phase == FastPathMapTransactionPhase::Committed ==> recovery_action(t, observed_active, observed_target_digest)
            == FastPathMapRecoveryAction::ReuseCommitted,
        t.phase == FastPathMapTransactionPhase::RolledBack ==> recovery_action(t, observed_active, observed_target_digest)
            == FastPathMapRecoveryAction::RollbackComplete,
{
}


/// Recovery never acts without the evidence its action needs: it flips to
/// the desired bank only from the staged phase, with the prior config still
/// active and the target bank read back exactly; it commits or reuses only
/// when the desired config is active over that exact bank; it completes a
/// rollback only with the prior config active and no target bank; and it
/// clears and restages only a prepared transaction whose prior config is
/// still active.
pub proof fn lemma_recovery_needs_evidence(
    t: FastPathMapTransaction,
    observed_active: Option<FastPathPublishedGeneration>,
    observed_target_digest: Option<EncryptionFastPathDigest>,
)
    ensures
        ({
            let a = recovery_action(t, observed_active, observed_target_digest);
            &&& a == FastPathMapRecoveryAction::ActivateDesired ==> t.phase == FastPathMapTransactionPhase::Staged
                && observed_active == t.prior && (observed_target_digest matches Some(d) && d.0@ == t.desired.published.state_digest.0@)
            &&& (a == FastPathMapRecoveryAction::CommitObservedDesired || a == FastPathMapRecoveryAction::ReuseCommitted)
                ==> observed_active == Some(t.desired.published) && (observed_target_digest matches Some(d) && d.0@ == t.desired.published.state_digest.0@)
            &&& a == FastPathMapRecoveryAction::ReuseCommitted ==> t.phase == FastPathMapTransactionPhase::Committed
            &&& a == FastPathMapRecoveryAction::RollbackComplete ==> t.phase == FastPathMapTransactionPhase::RolledBack
                && observed_active == t.prior && observed_target_digest is None
            &&& a == FastPathMapRecoveryAction::ClearAndRestageInactive ==> t.phase
                == FastPathMapTransactionPhase::Prepared && observed_active == t.prior
            &&& observed_target_digest is None ==> a != FastPathMapRecoveryAction::ActivateDesired
                && a != FastPathMapRecoveryAction::CommitObservedDesired
                && a != FastPathMapRecoveryAction::ReuseCommitted
        }),
{
}

} // verus!
