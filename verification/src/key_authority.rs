//! Node-local WireGuard key authority and durable epoch rotation.
//!
//! Secret material is deliberately absent from every public record type. A
//! Node holds at most two epochs; a new epoch becomes active only after every
//! peer named by its causal barrier has acknowledged it, and a retired epoch
//! leaves only after positive proof that nothing uses it any more.

use vstd::prelude::*;
use crate::digest::{
    all_zero, bytes32_is_zero, opt_raw_bytes, push_opt_raw32, bool_bytes, bytes32_eq, opt_u64_bytes, push_bool, push_opt_u64, push_raw32, push_text,
    push_u16, push_u32, push_u64, push_u8, raw_bytes, sha256, sha256_spec, text_bytes, u16_bytes,
    u32_bytes, u64_bytes, u8_bytes,
};
use crate::ids::Revision;
use crate::keys::{
    public_key_digest, public_key_digest_spec, x25519_public_spec, EncryptionPublicKeyDigest,
    WireGuardPrivateKey, WireGuardPublicKey,
};
use crate::text::{
    bounded_text, compare_text, contains_text, is_bounded_text, is_strictly_sorted_texts,
    strictly_sorted, text_eq, text_lt, texts_view,
};

verus! {

pub const NODE_KEY_AUTHORITY_SCHEMA_VERSION: u16 = 1;
pub const NODE_KEY_PUBLICATION_SCHEMA_VERSION: u16 = 1;
pub const CAUSAL_EPOCH_BARRIER_SCHEMA_VERSION: u16 = 1;
pub const MAX_ROTATION_PEERS: usize = 4096;
pub const MAX_KEY_AUTHORITY_TEXT_BYTES: usize = 253;
/// Thirty-one days.
pub const MAX_KEY_LIFETIME_MS: u64 = 2_678_400_000;
/// One day.
pub const MAX_EPOCH_DRAIN_MS: u64 = 86_400_000;

pub const BARRIER_DIGEST_DOMAIN: &'static str = "unf.causal-epoch-barrier.v1";
pub const READINESS_DIGEST_DOMAIN: &'static str = "unf.epoch-readiness-certificate.v1";
pub const PUBLICATION_DIGEST_DOMAIN: &'static str = "unf.node-key-publication.v1";
pub const DRAIN_PROOF_DIGEST_DOMAIN: &'static str = "unf.epoch-drain-proof.v1";
pub const REVOCATION_DIGEST_DOMAIN: &'static str = "unf.epoch-revocation.v1";

#[derive(Debug)]
pub enum KeyAuthorityError {
    UnsupportedSchema(u16),
    InvalidIdentity,
    EntropyUnavailable(String),
    InvalidPrivateKey,
    KernelPlanMismatch,
    DuplicatePublicKey,
    InvalidLifetime,
    EpochCapacityOrTransition,
    EpochOverflow,
    RevisionOverflow,
    UnknownEpoch(u64),
    InvalidBarrier,
    BarrierDigestMismatch,
    UnauthenticatedPeer,
    InvalidAcknowledgement,
    AcknowledgementMutation,
    ActivationBarrierNotSatisfied,
    InvalidDrainWindow,
    InvalidDrainProof,
    InvalidRevocationReceipt,
    InvalidDurableState,
    InvalidPublication,
    UnauthenticatedPublication,
    NodeReplacementRequiresFence,
    PublicationReplay,
    PublicationMutation,
    PublicationRegression,
    UnsafeStoragePath,
    CheckpointDigestMismatch,
    /// A durable store refused to persist a candidate authority.
    Storage(String),
}

#[derive(Clone, Copy, Debug, PartialEq, Eq, Structural, PartialOrd, Ord)]
pub enum KeyEpochPhase {
    Prepared,
    MutuallyAttested,
    Active,
    Draining,
}

pub open spec fn phase_rank(p: KeyEpochPhase) -> int {
    match p {
        KeyEpochPhase::Prepared => 0,
        KeyEpochPhase::MutuallyAttested => 1,
        KeyEpochPhase::Active => 2,
        KeyEpochPhase::Draining => 3,
    }
}

pub fn phase_code(p: KeyEpochPhase) -> (r: u8)
    ensures
        r as int == phase_rank(p),
{
    match p {
        KeyEpochPhase::Prepared => 0,
        KeyEpochPhase::MutuallyAttested => 1,
        KeyEpochPhase::Active => 2,
        KeyEpochPhase::Draining => 3,
    }
}

#[derive(Clone, Copy, Debug)]
pub struct CausalEpochBarrierDigest(pub [u8; 32]);

#[derive(Clone, Copy, Debug)]
pub struct EpochReadinessDigest(pub [u8; 32]);

#[derive(Clone, Copy, Debug)]
pub struct NodeKeyPublicationDigest(pub [u8; 32]);

#[derive(Clone, Copy, Debug)]
pub struct EpochDrainProofDigest(pub [u8; 32]);

#[derive(Clone, Copy, Debug)]
pub struct EpochRevocationDigest(pub [u8; 32]);

/// Bounded Node-key text: nonempty, at most 253 bytes, no control characters.
pub open spec fn key_text(s: Seq<char>) -> bool {
    bounded_text(s, MAX_KEY_AUTHORITY_TEXT_BYTES as nat)
}

pub open spec fn identity_ok(cluster_id: Seq<char>, node_name: Seq<char>, node_uid: Seq<char>) -> bool {
    key_text(cluster_id) && key_text(node_name) && key_text(node_uid)
}

pub open spec fn lifetime_ok(from: u64, until: u64) -> bool {
    from != 0 && from < until && until - from <= MAX_KEY_LIFETIME_MS
}

/// A canonical peer frontier: bounded, strictly increasing, valid texts, and
/// never naming the target itself.
pub open spec fn frontier_ok(target: Seq<char>, peers: Seq<Seq<char>>) -> bool {
    &&& peers.len() <= MAX_ROTATION_PEERS
    &&& strictly_sorted(peers)
    &&& forall|i: int| 0 <= i < peers.len() ==> key_text(#[trigger] peers[i]) && peers[i] != target
}

pub fn validate_text(s: &str) -> (r: bool)
    ensures
        r == key_text(s@),
{
    is_bounded_text(s, MAX_KEY_AUTHORITY_TEXT_BYTES)
}

/// Accepts three bounded identity fields.
pub fn validate_identity(cluster_id: &str, node_name: &str, node_uid: &str) -> (r: Result<
    (),
    KeyAuthorityError,
>)
    ensures
        r is Ok <==> identity_ok(cluster_id@, node_name@, node_uid@),
        r is Err ==> r->Err_0 is InvalidIdentity,
{
    if validate_text(cluster_id) && validate_text(node_name) && validate_text(
        node_uid,
    ) {
        Ok(())
    } else {
        Err(KeyAuthorityError::InvalidIdentity)
    }
}

/// Accepts a nonzero, ordered key lifetime of at most thirty-one days.
pub fn validate_lifetime(from: u64, until: u64) -> (r: Result<(), KeyAuthorityError>)
    ensures
        r is Ok <==> lifetime_ok(from, until),
        r is Err ==> r->Err_0 is InvalidLifetime,
{
    if from == 0 || from >= until || until - from > MAX_KEY_LIFETIME_MS {
        Err(KeyAuthorityError::InvalidLifetime)
    } else {
        Ok(())
    }
}

/// Accepts a canonical peer frontier for `target_node_uid`.
pub fn validate_peer_frontier(target_node_uid: &str, peers: &Vec<String>) -> (r: Result<
    (),
    KeyAuthorityError,
>)
    ensures
        r is Ok <==> frontier_ok(target_node_uid@, texts_view(peers@)),
        r is Err ==> r->Err_0 is InvalidBarrier,
{
    if peers.len() > MAX_ROTATION_PEERS || !is_strictly_sorted_texts(peers) {
        return Err(KeyAuthorityError::InvalidBarrier);
    }
    let mut i: usize = 0;
    while i < peers.len()
        invariant
            i <= peers@.len(),
            forall|j: int|
                0 <= j < i ==> key_text(#[trigger] peers@[j]@) && peers@[j]@ != target_node_uid@,
        decreases peers@.len() - i,
    {
        if !validate_text(peers[i].as_str()) || text_eq(peers[i].as_str(), target_node_uid) {
            assert(texts_view(peers@)[i as int] == peers@[i as int]@);
            return Err(KeyAuthorityError::InvalidBarrier);
        }
        i = i + 1;
    }
    assert forall|j: int| 0 <= j < texts_view(peers@).len() implies key_text(
        #[trigger] texts_view(peers@)[j],
    ) && texts_view(peers@)[j] != target_node_uid@ by {
        assert(texts_view(peers@)[j] == peers@[j]@);
    }
    Ok(())
}

/// Length-prefixed list of texts.
pub open spec fn texts_concat(v: Seq<String>) -> Seq<u8>
    decreases v.len(),
{
    if v.len() == 0 {
        Seq::empty()
    } else {
        texts_concat(v.drop_last()) + text_bytes(v.last()@)
    }
}

pub open spec fn texts_bytes(v: Seq<String>) -> Seq<u8> {
    u64_bytes(v.len() as u64) + texts_concat(v)
}

pub fn push_texts(out: &mut Vec<u8>, v: &Vec<String>)
    ensures
        final(out)@ == old(out)@ + texts_bytes(v@),
{
    push_u64(out, v.len() as u64);
    let ghost start = out@;
    let mut i: usize = 0;
    while i < v.len()
        invariant
            i <= v@.len(),
            out@ == start + texts_concat(v@.take(i as int)),
        decreases v@.len() - i,
    {
        push_text(out, v[i].as_str());
        assert(v@.take(i + 1).drop_last() =~= v@.take(i as int));
        i = i + 1;
    }
    assert(v@.take(i as int) =~= v@);
}

/// Exact affected-peer frontier that must acknowledge a prepared epoch.
#[derive(Clone, Debug)]
pub struct CausalEpochBarrier {
    pub schema_version: u16,
    pub target_node_uid: String,
    pub epoch: u64,
    pub public_key_digest: EncryptionPublicKeyDigest,
    pub topology_revision: Revision,
    /// Strictly increasing peer Node UIDs.
    pub required_peer_uids: Vec<String>,
    pub valid_until_unix_ms: u64,
    pub barrier_digest: CausalEpochBarrierDigest,
}

pub open spec fn barrier_material(b: CausalEpochBarrier) -> Seq<u8> {
    u16_bytes(b.schema_version) + text_bytes(b.target_node_uid@) + u64_bytes(b.epoch) + raw_bytes(
        b.public_key_digest.0@,
    ) + u64_bytes(b.topology_revision.0) + texts_bytes(b.required_peer_uids@) + u64_bytes(
        b.valid_until_unix_ms,
    )
}

/// The digest committing to every barrier field except the digest itself.
pub open spec fn barrier_digest_spec(b: CausalEpochBarrier) -> Seq<u8> {
    sha256_spec(text_bytes(BARRIER_DIGEST_DOMAIN@) + barrier_material(b))
}

/// Shape and digest validity of a barrier.
pub open spec fn barrier_ok(b: CausalEpochBarrier) -> bool {
    &&& b.schema_version == CAUSAL_EPOCH_BARRIER_SCHEMA_VERSION
    &&& b.epoch != 0
    &&& b.topology_revision.0 != 0
    &&& b.valid_until_unix_ms != 0
    &&& frontier_ok(b.target_node_uid@, texts_view(b.required_peer_uids@))
    &&& b.barrier_digest.0@ == barrier_digest_spec(b)
}

impl CausalEpochBarrier {
    /// Recomputes the barrier commitment.
    pub fn calculate_digest(&self) -> (d: CausalEpochBarrierDigest)
        ensures
            d.0@ == barrier_digest_spec(*self),
    {
        let mut m: Vec<u8> = Vec::new();
        push_text(&mut m, BARRIER_DIGEST_DOMAIN);
        push_u16(&mut m, self.schema_version);
        push_text(&mut m, self.target_node_uid.as_str());
        push_u64(&mut m, self.epoch);
        push_raw32(&mut m, &self.public_key_digest.0);
        push_u64(&mut m, self.topology_revision.0);
        push_texts(&mut m, &self.required_peer_uids);
        push_u64(&mut m, self.valid_until_unix_ms);
        assert(m@ =~= text_bytes(BARRIER_DIGEST_DOMAIN@) + barrier_material(*self));
        CausalEpochBarrierDigest(sha256(&m))
    }

    /// Seals a barrier for one prepared epoch.
    pub fn issue(
        target_node_uid: String,
        epoch: u64,
        public_key: WireGuardPublicKey,
        topology_revision: Revision,
        required_peer_uids: Vec<String>,
        valid_until_unix_ms: u64,
    ) -> (r: Result<Self, KeyAuthorityError>)
        ensures
            r is Ok <==> frontier_ok(target_node_uid@, texts_view(required_peer_uids@)) && epoch
                != 0 && topology_revision.0 != 0 && valid_until_unix_ms != 0,
            r matches Ok(b) ==> {
                &&& barrier_ok(b)
                &&& b.target_node_uid == target_node_uid
                &&& b.epoch == epoch
                &&& b.public_key_digest.0@ == public_key_digest_spec(public_key.0@)
                &&& b.topology_revision == topology_revision
                &&& b.required_peer_uids == required_peer_uids
                &&& b.valid_until_unix_ms == valid_until_unix_ms
            },
            r is Err ==> r->Err_0 is InvalidBarrier,
    {
        validate_peer_frontier(target_node_uid.as_str(), &required_peer_uids)?;
        if epoch == 0 || topology_revision.0 == 0 || valid_until_unix_ms == 0 {
            return Err(KeyAuthorityError::InvalidBarrier);
        }
        let mut barrier = CausalEpochBarrier {
            schema_version: CAUSAL_EPOCH_BARRIER_SCHEMA_VERSION,
            target_node_uid,
            epoch,
            public_key_digest: public_key_digest(public_key),
            topology_revision,
            required_peer_uids,
            valid_until_unix_ms,
            barrier_digest: CausalEpochBarrierDigest([0u8; 32]),
        };
        let d = barrier.calculate_digest();
        barrier.barrier_digest = d;
        Ok(barrier)
    }

    /// Independently verifies the canonical peer frontier and digest.
    pub fn verify(&self) -> (r: Result<(), KeyAuthorityError>)
        ensures
            r is Ok <==> barrier_ok(*self),
            r is Err ==> (r->Err_0 is InvalidBarrier || r->Err_0 is BarrierDigestMismatch),
    {
        if self.schema_version != CAUSAL_EPOCH_BARRIER_SCHEMA_VERSION || self.epoch == 0
            || self.topology_revision.0 == 0 || self.valid_until_unix_ms == 0 {
            return Err(KeyAuthorityError::InvalidBarrier);
        }
        validate_peer_frontier(self.target_node_uid.as_str(), &self.required_peer_uids)?;
        let expected = self.calculate_digest();
        if !bytes32_eq(&self.barrier_digest.0, &expected.0) {
            return Err(KeyAuthorityError::BarrierDigestMismatch);
        }
        Ok(())
    }
}

} // verus!

verus! {

#[derive(Clone, Debug)]
pub struct PeerEpochAcknowledgement {
    pub peer_node_uid: String,
    pub target_node_uid: String,
    pub epoch: u64,
    pub barrier_digest: CausalEpochBarrierDigest,
    pub peer_public_epoch: u64,
    pub observed_at_unix_ms: u64,
}

/// Field-wise equality of two acknowledgements.
pub open spec fn ack_same(a: PeerEpochAcknowledgement, b: PeerEpochAcknowledgement) -> bool {
    &&& a.peer_node_uid@ == b.peer_node_uid@
    &&& a.target_node_uid@ == b.target_node_uid@
    &&& a.epoch == b.epoch
    &&& a.barrier_digest.0@ == b.barrier_digest.0@
    &&& a.peer_public_epoch == b.peer_public_epoch
    &&& a.observed_at_unix_ms == b.observed_at_unix_ms
}

pub fn ack_equal(a: &PeerEpochAcknowledgement, b: &PeerEpochAcknowledgement) -> (r: bool)
    ensures
        r == ack_same(*a, *b),
{
    a.peer_node_uid == b.peer_node_uid && a.target_node_uid == b.target_node_uid && a.epoch
        == b.epoch && bytes32_eq(&a.barrier_digest.0, &b.barrier_digest.0) && a.peer_public_epoch
        == b.peer_public_epoch && a.observed_at_unix_ms == b.observed_at_unix_ms
}

pub open spec fn ack_bytes(k: PeerEpochAcknowledgement) -> Seq<u8> {
    text_bytes(k.peer_node_uid@) + text_bytes(k.target_node_uid@) + u64_bytes(k.epoch) + raw_bytes(
        k.barrier_digest.0@,
    ) + u64_bytes(k.peer_public_epoch) + u64_bytes(k.observed_at_unix_ms)
}

pub open spec fn acks_concat(v: Seq<PeerEpochAcknowledgement>) -> Seq<u8>
    decreases v.len(),
{
    if v.len() == 0 {
        Seq::empty()
    } else {
        acks_concat(v.drop_last()) + ack_bytes(v.last())
    }
}

pub open spec fn acks_bytes(v: Seq<PeerEpochAcknowledgement>) -> Seq<u8> {
    u64_bytes(v.len() as u64) + acks_concat(v)
}

pub fn push_ack(out: &mut Vec<u8>, k: &PeerEpochAcknowledgement)
    ensures
        final(out)@ == old(out)@ + ack_bytes(*k),
{
    push_text(out, k.peer_node_uid.as_str());
    push_text(out, k.target_node_uid.as_str());
    push_u64(out, k.epoch);
    push_raw32(out, &k.barrier_digest.0);
    push_u64(out, k.peer_public_epoch);
    push_u64(out, k.observed_at_unix_ms);
    assert(final(out)@ =~= old(out)@ + ack_bytes(*k));
}

pub fn push_acks(out: &mut Vec<u8>, v: &Vec<PeerEpochAcknowledgement>)
    ensures
        final(out)@ == old(out)@ + acks_bytes(v@),
{
    push_u64(out, v.len() as u64);
    let ghost start = out@;
    let mut i: usize = 0;
    while i < v.len()
        invariant
            i <= v@.len(),
            out@ == start + acks_concat(v@.take(i as int)),
        decreases v@.len() - i,
    {
        push_ack(out, &v[i]);
        assert(v@.take(i + 1).drop_last() =~= v@.take(i as int));
        i = i + 1;
    }
    assert(v@.take(i as int) =~= v@);
}

/// The peer Node UIDs of a list of acknowledgements.
pub open spec fn ack_peers(v: Seq<PeerEpochAcknowledgement>) -> Seq<String> {
    v.map_values(|k: PeerEpochAcknowledgement| k.peer_node_uid)
}

#[derive(Clone, Debug)]
pub struct EpochReadinessCertificate {
    pub barrier_digest: CausalEpochBarrierDigest,
    pub acknowledged_peer_uids: Vec<String>,
    pub readiness_digest: EpochReadinessDigest,
}

pub open spec fn readiness_digest_spec(
    barrier_digest: Seq<u8>,
    peers: Seq<String>,
    acks: Seq<PeerEpochAcknowledgement>,
) -> Seq<u8> {
    sha256_spec(
        text_bytes(READINESS_DIGEST_DOMAIN@) + raw_bytes(barrier_digest) + texts_bytes(peers)
            + acks_bytes(acks),
    )
}

/// The readiness certificate of an epoch whose acknowledgements cover its
/// barrier exactly.
pub closed spec fn readiness_cert_ok(e: LocalKeyEpoch, c: EpochReadinessCertificate) -> bool {
    &&& c.barrier_digest.0@ == e.barrier.barrier_digest.0@
    &&& texts_view(c.acknowledged_peer_uids@) == texts_view(ack_peers(e.acknowledgements@))
    &&& c.readiness_digest.0@ == readiness_digest_spec(
        e.barrier.barrier_digest.0@,
        ack_peers(e.acknowledgements@),
        e.acknowledgements@,
    )
}

/// The acknowledgements name exactly the barrier's peers, in order.
pub closed spec fn acks_cover_barrier(e: LocalKeyEpoch) -> bool {
    texts_view(ack_peers(e.acknowledgements@)) == texts_view(e.barrier.required_peer_uids@)
}

/// One Node-local key epoch, holding its secret.
#[derive(Clone)]
pub struct LocalKeyEpoch {
    pub(crate) epoch: u64,
    pub(crate) public_key: WireGuardPublicKey,
    pub(crate) private_key: WireGuardPrivateKey,
    pub(crate) valid_from_unix_ms: u64,
    pub(crate) valid_until_unix_ms: u64,
    pub(crate) phase: KeyEpochPhase,
    pub(crate) barrier: CausalEpochBarrier,
    /// Strictly increasing by peer Node UID.
    pub(crate) acknowledgements: Vec<PeerEpochAcknowledgement>,
    pub(crate) readiness: Option<EpochReadinessCertificate>,
    pub(crate) drain_deadline_unix_ms: Option<u64>,
}

impl LocalKeyEpoch {
    pub closed spec fn epoch_spec(&self) -> u64 {
        self.epoch
    }

    pub closed spec fn phase_spec(&self) -> KeyEpochPhase {
        self.phase
    }

    pub closed spec fn public_key_spec(&self) -> Seq<u8> {
        self.public_key.0@
    }

    pub closed spec fn valid_until_spec(&self) -> u64 {
        self.valid_until_unix_ms
    }

    pub closed spec fn barrier_spec(&self) -> CausalEpochBarrier {
        self.barrier
    }

    pub closed spec fn secret_spec(&self) -> Seq<u8> {
        self.private_key.secret()
    }

    pub closed spec fn drain_deadline_spec(&self) -> Option<u64> {
        self.drain_deadline_unix_ms
    }

    pub fn epoch(&self) -> (r: u64)
        ensures
            r == self.epoch_spec(),
    {
        self.epoch
    }

    pub fn public_key(&self) -> (r: WireGuardPublicKey)
        ensures
            r.0@ == self.public_key_spec(),
    {
        self.public_key
    }

    pub fn phase(&self) -> (r: KeyEpochPhase)
        ensures
            r == self.phase_spec(),
    {
        self.phase
    }

    pub fn valid_until_unix_ms(&self) -> (r: u64)
        ensures
            r == self.valid_until_spec(),
    {
        self.valid_until_unix_ms
    }

    pub fn barrier(&self) -> (r: &CausalEpochBarrier)
        ensures
            *r == self.barrier_spec(),
    {
        &self.barrier
    }

    pub fn private_key_for_kernel(&self) -> (r: &[u8; 32])
        ensures
            r@ == self.secret_spec(),
    {
        self.private_key.expose_for_kernel()
    }
}

pub closed spec fn ack_fits(node_uid: Seq<char>, e: LocalKeyEpoch, k: PeerEpochAcknowledgement) -> bool {
    &&& texts_view(e.barrier.required_peer_uids@).contains(k.peer_node_uid@)
    &&& k.target_node_uid@ == node_uid
    &&& k.epoch == e.epoch
    &&& k.barrier_digest.0@ == e.barrier.barrier_digest.0@
    &&& k.peer_public_epoch != 0
    &&& k.observed_at_unix_ms != 0
    &&& k.observed_at_unix_ms <= e.barrier.valid_until_unix_ms
}

pub closed spec fn acks_complete(e: LocalKeyEpoch) -> bool {
    e.acknowledgements@.len() == e.barrier.required_peer_uids@.len()
}

/// Internal consistency of one epoch owned by `node_uid`.
pub closed spec fn epoch_ok(node_uid: Seq<char>, e: LocalKeyEpoch) -> bool {
    &&& lifetime_ok(e.valid_from_unix_ms, e.valid_until_unix_ms)
    &&& barrier_ok(e.barrier)
    &&& e.barrier.target_node_uid@ == node_uid
    &&& e.barrier.epoch == e.epoch
    &&& e.barrier.public_key_digest.0@ == public_key_digest_spec(e.public_key.0@)
    &&& e.barrier.valid_until_unix_ms == e.valid_until_unix_ms
    &&& x25519_public_spec(e.private_key.secret()) == e.public_key.0@
    &&& !all_zero(e.public_key.0@)
    &&& e.private_key.wf()
    &&& strictly_sorted(texts_view(ack_peers(e.acknowledgements@)))
    &&& forall|i: int|
        0 <= i < e.acknowledgements@.len() ==> ack_fits(
            node_uid,
            e,
            #[trigger] e.acknowledgements@[i],
        )
    &&& e.phase == KeyEpochPhase::Prepared ==> !acks_complete(e) && e.readiness is None
    &&& e.phase != KeyEpochPhase::Prepared ==> acks_complete(e) && acks_cover_barrier(e) && (
    e.readiness matches Some(c) && readiness_cert_ok(e, c))
    &&& (e.phase == KeyEpochPhase::Draining) == (e.drain_deadline_unix_ms is Some)
}

pub open spec fn pending_phase(p: KeyEpochPhase) -> bool {
    p == KeyEpochPhase::Prepared || p == KeyEpochPhase::MutuallyAttested
}

/// Node-local state. It deliberately has no serialized form.
#[derive(Clone)]
pub struct NodeKeyAuthority {
    pub(crate) schema_version: u16,
    pub(crate) cluster_id: String,
    pub(crate) node_name: String,
    pub(crate) node_uid: String,
    pub(crate) key_revision: Revision,
    pub(crate) next_epoch: u64,
    pub(crate) retired_through_epoch: u64,
    pub(crate) revoked_through_epoch: u64,
    pub(crate) epochs: Vec<LocalKeyEpoch>,
}

/// The complete consistency condition of an authority: the one that every
/// operation checks before and after it acts.
pub closed spec fn authority_ok(a: NodeKeyAuthority) -> bool {
    let es = a.epochs@;
    &&& a.schema_version == NODE_KEY_AUTHORITY_SCHEMA_VERSION
    &&& identity_ok(a.cluster_id@, a.node_name@, a.node_uid@)
    &&& a.next_epoch != 0
    &&& es.len() <= 2
    &&& a.retired_through_epoch < a.next_epoch
    &&& a.revoked_through_epoch < a.next_epoch
    &&& forall|i: int|
        0 <= i < es.len() ==> {
            &&& epoch_ok(a.node_uid@, #[trigger] es[i])
            &&& 0 < es[i].epoch < a.next_epoch
            &&& es[i].epoch > a.retired_through_epoch
            &&& es[i].epoch > a.revoked_through_epoch
        }
    &&& forall|i: int, j: int|
        0 <= i < j < es.len() ==> {
            &&& (#[trigger] es[i]).epoch < (#[trigger] es[j]).epoch
            &&& es[i].public_key.0@ != es[j].public_key.0@
            &&& es[i].phase != es[j].phase
            &&& !(pending_phase(es[i].phase) && pending_phase(es[j].phase))
        }
    &&& (exists|i: int| 0 <= i < es.len() && #[trigger] es[i].phase == KeyEpochPhase::Draining)
        ==> (exists|j: int| 0 <= j < es.len() && #[trigger] es[j].phase == KeyEpochPhase::Active)
}

/// Issues the readiness certificate of a fully acknowledged epoch.
pub fn issue_readiness_certificate(e: &LocalKeyEpoch) -> (r: Result<
    EpochReadinessCertificate,
    KeyAuthorityError,
>)
    ensures
        r is Ok <==> acks_cover_barrier(*e),
        r matches Ok(c) ==> readiness_cert_ok(*e, c),
        r is Err ==> r->Err_0 is ActivationBarrierNotSatisfied,
{
    let mut peers: Vec<String> = Vec::new();
    let mut i: usize = 0;
    while i < e.acknowledgements.len()
        invariant
            i <= e.acknowledgements@.len(),
            peers@ == ack_peers(e.acknowledgements@.take(i as int)),
        decreases e.acknowledgements@.len() - i,
    {
        peers.push(e.acknowledgements[i].peer_node_uid.clone());
        assert(ack_peers(e.acknowledgements@.take(i + 1)) =~= ack_peers(
            e.acknowledgements@.take(i as int),
        ).push(e.acknowledgements@[i as int].peer_node_uid));
        i = i + 1;
    }
    assert(e.acknowledgements@.take(i as int) =~= e.acknowledgements@);
    if !crate::text::texts_equal(&peers, &e.barrier.required_peer_uids) {
        return Err(KeyAuthorityError::ActivationBarrierNotSatisfied);
    }
    let mut m: Vec<u8> = Vec::new();
    push_text(&mut m, READINESS_DIGEST_DOMAIN);
    push_raw32(&mut m, &e.barrier.barrier_digest.0);
    push_texts(&mut m, &peers);
    push_acks(&mut m, &e.acknowledgements);
    assert(m@ =~= text_bytes(READINESS_DIGEST_DOMAIN@) + raw_bytes(e.barrier.barrier_digest.0@)
        + texts_bytes(ack_peers(e.acknowledgements@)) + acks_bytes(e.acknowledgements@));
    let d = sha256(&m);
    Ok(EpochReadinessCertificate {
        barrier_digest: e.barrier.barrier_digest,
        acknowledged_peer_uids: peers,
        readiness_digest: EpochReadinessDigest(d),
    })
}

pub fn readiness_equal(a: &EpochReadinessCertificate, b: &EpochReadinessCertificate) -> (r: bool)
    ensures
        r == (a.barrier_digest.0@ == b.barrier_digest.0@ && texts_view(a.acknowledged_peer_uids@)
            == texts_view(b.acknowledged_peer_uids@) && a.readiness_digest.0@
            == b.readiness_digest.0@),
{
    bytes32_eq(&a.barrier_digest.0, &b.barrier_digest.0) && crate::text::texts_equal(
        &a.acknowledged_peer_uids,
        &b.acknowledged_peer_uids,
    ) && bytes32_eq(&a.readiness_digest.0, &b.readiness_digest.0)
}

/// Whether the acknowledgement peers are strictly increasing.
pub fn acks_strictly_sorted(v: &Vec<PeerEpochAcknowledgement>) -> (r: bool)
    ensures
        r == strictly_sorted(texts_view(ack_peers(v@))),
{
    let n = v.len();
    if n == 0 {
        return true;
    }
    let mut i: usize = 1;
    while i < n
        invariant
            n == v@.len(),
            1 <= i <= n,
            forall|a: int, b: int|
                0 <= a < b < i ==> text_lt(
                    #[trigger] v@[a].peer_node_uid@,
                    #[trigger] v@[b].peer_node_uid@,
                ),
        decreases n - i,
    {
        if compare_text(v[i - 1].peer_node_uid.as_str(), v[i].peer_node_uid.as_str()) >= 0 {
            assert(!text_lt(
                texts_view(ack_peers(v@))[i - 1],
                texts_view(ack_peers(v@))[i as int],
            ));
            return false;
        }
        assert forall|a: int, b: int| 0 <= a < b < i + 1 implies text_lt(
            #[trigger] v@[a].peer_node_uid@,
            #[trigger] v@[b].peer_node_uid@,
        ) by {
            if b == i && a < i - 1 {
                crate::text::lemma_text_lt_transitive(
                    v@[a].peer_node_uid@,
                    v@[i - 1].peer_node_uid@,
                    v@[b].peer_node_uid@,
                );
            }
        }
        i = i + 1;
    }
    assert forall|a: int, b: int| 0 <= a < b < texts_view(ack_peers(v@)).len() implies text_lt(
        #[trigger] texts_view(ack_peers(v@))[a],
        #[trigger] texts_view(ack_peers(v@))[b],
    ) by {
        assert(texts_view(ack_peers(v@))[a] == v@[a].peer_node_uid@);
        assert(texts_view(ack_peers(v@))[b] == v@[b].peer_node_uid@);
    }
    true
}

/// Checks one epoch against its owner Node UID.
fn check_epoch(node_uid: &str, e: &LocalKeyEpoch) -> (r: bool)
    ensures
        r == epoch_ok(node_uid@, *e),
{
    if validate_lifetime(e.valid_from_unix_ms, e.valid_until_unix_ms).is_err() {
        return false;
    }
    if e.barrier.verify().is_err() {
        return false;
    }
    let pk_digest = public_key_digest(e.public_key);
    if !text_eq(e.barrier.target_node_uid.as_str(), node_uid) || e.barrier.epoch != e.epoch
        || !bytes32_eq(&e.barrier.public_key_digest.0, &pk_digest.0)
        || e.barrier.valid_until_unix_ms != e.valid_until_unix_ms {
        return false;
    }
    let derived = e.private_key.public_key();
    if !bytes32_eq(&derived.0, &e.public_key.0) || bytes32_is_zero(&e.public_key.0) || !e.private_key.is_nonzero() {
        return false;
    }
    if !acks_strictly_sorted(&e.acknowledgements) {
        return false;
    }
    let mut i: usize = 0;
    while i < e.acknowledgements.len()
        invariant
            i <= e.acknowledgements@.len(),
            forall|j: int| 0 <= j < i ==> ack_fits(node_uid@, *e, #[trigger] e.acknowledgements@[j]),
        decreases e.acknowledgements@.len() - i,
    {
        let k = &e.acknowledgements[i];
        if !contains_text(&e.barrier.required_peer_uids, k.peer_node_uid.as_str()) || !text_eq(
            k.target_node_uid.as_str(),
            node_uid,
        ) || k.epoch != e.epoch || !bytes32_eq(&k.barrier_digest.0, &e.barrier.barrier_digest.0)
            || k.peer_public_epoch == 0 || k.observed_at_unix_ms == 0 || k.observed_at_unix_ms
            > e.barrier.valid_until_unix_ms {
            return false;
        }
        i = i + 1;
    }
    let complete = e.acknowledgements.len() == e.barrier.required_peer_uids.len();
    if e.phase == KeyEpochPhase::Prepared {
        if complete || e.readiness.is_some() {
            return false;
        }
    } else {
        if !complete {
            return false;
        }
        let expected = match issue_readiness_certificate(e) {
            Ok(c) => c,
            Err(_) => {
                return false;
            },
        };
        match &e.readiness {
            Some(c) => {
                if !readiness_equal(c, &expected) {
                    return false;
                }
            },
            None => {
                return false;
            },
        }
    }
    (e.phase == KeyEpochPhase::Draining) == e.drain_deadline_unix_ms.is_some()
}

/// The schema, identity, and counters of `a` are consistent.
pub closed spec fn authority_front_ok(a: NodeKeyAuthority) -> bool {
    &&& a.schema_version == NODE_KEY_AUTHORITY_SCHEMA_VERSION
    &&& identity_ok(a.cluster_id@, a.node_name@, a.node_uid@)
    &&& a.next_epoch != 0
    &&& a.epochs@.len() <= 2
    &&& a.retired_through_epoch < a.next_epoch
    &&& a.revoked_through_epoch < a.next_epoch
}

/// Epoch `i` of `a` is numbered inside the live range, after the epoch
/// before it and with another key, and its public key is that of its secret.
pub closed spec fn epoch_front_ok(a: NodeKeyAuthority, i: int) -> bool {
    let e = a.epochs@[i];
    &&& 0 < e.epoch < a.next_epoch
    &&& e.epoch > a.retired_through_epoch
    &&& e.epoch > a.revoked_through_epoch
    &&& i == 1 ==> a.epochs@[0].epoch < e.epoch && a.epochs@[0].public_key.0@ != e.public_key.0@
    &&& x25519_public_spec(e.private_key.secret()) == e.public_key.0@
}

impl NodeKeyAuthority {
    /// Checks the complete consistency condition.
    #[verifier::spinoff_prover]
    #[verifier::rlimit(40)]
    fn validate(&self) -> (r: Result<(), KeyAuthorityError>)
        ensures
            r is Ok <==> authority_ok(*self),
            self.schema_version == NODE_KEY_AUTHORITY_SCHEMA_VERSION && identity_ok(
                self.cluster_id@,
                self.node_name@,
                self.node_uid@,
            ) && r is Err ==> (r == Err::<(), KeyAuthorityError>(KeyAuthorityError::InvalidDurableState) || r
                == Err::<(), KeyAuthorityError>(KeyAuthorityError::InvalidLifetime) || r->Err_0 is InvalidBarrier
                || r->Err_0 is BarrierDigestMismatch),
            authority_front_ok(*self) && self.epochs@.len() > 0 && epoch_front_ok(*self, 0) && !lifetime_ok(
                self.epochs@[0].valid_from_unix_ms,
                self.epochs@[0].valid_until_unix_ms,
            ) ==> r == Err::<(), KeyAuthorityError>(KeyAuthorityError::InvalidLifetime),
            authority_front_ok(*self) && self.epochs@.len() > 0 && epoch_front_ok(*self, 0) && lifetime_ok(
                self.epochs@[0].valid_from_unix_ms,
                self.epochs@[0].valid_until_unix_ms,
            ) && !barrier_ok(self.epochs@[0].barrier) ==> (r->Err_0 is InvalidBarrier
                || r->Err_0 is BarrierDigestMismatch),
    {
        if self.schema_version != NODE_KEY_AUTHORITY_SCHEMA_VERSION {
            return Err(KeyAuthorityError::UnsupportedSchema(self.schema_version));
        }
        validate_identity(self.cluster_id.as_str(), self.node_name.as_str(), self.node_uid.as_str())?;
        if self.next_epoch == 0 || self.epochs.len() > 2 || self.retired_through_epoch
            >= self.next_epoch || self.revoked_through_epoch >= self.next_epoch {
            return Err(KeyAuthorityError::InvalidDurableState);
        }
        let n = self.epochs.len();
        let mut i: usize = 0;
        while i < n
            invariant
                n == self.epochs@.len(),
                i <= n,
                forall|j: int|
                    0 <= j < i ==> {
                        &&& epoch_ok(self.node_uid@, #[trigger] self.epochs@[j])
                        &&& 0 < self.epochs@[j].epoch < self.next_epoch
                        &&& self.epochs@[j].epoch > self.retired_through_epoch
                        &&& self.epochs@[j].epoch > self.revoked_through_epoch
                    },
            decreases n - i,
        {
            let e = &self.epochs[i];
            let out_of_order = i == 1 && (self.epochs[0].epoch >= e.epoch || bytes32_eq(
                &self.epochs[0].public_key.0,
                &e.public_key.0,
            ));
            let derived = e.private_key.public_key();
            if e.epoch == 0 || e.epoch >= self.next_epoch || e.epoch <= self.retired_through_epoch
                || e.epoch <= self.revoked_through_epoch || out_of_order || !bytes32_eq(&derived.0, &e.public_key.0) {
                proof {
                    if i == 1 && out_of_order {
                        assert(!authority_ok(*self));
                    }
                }
                return Err(KeyAuthorityError::InvalidDurableState);
            }
            validate_lifetime(e.valid_from_unix_ms, e.valid_until_unix_ms)?;
            e.barrier.verify()?;
            if !check_epoch(self.node_uid.as_str(), e) {
                return Err(KeyAuthorityError::InvalidDurableState);
            }
            i = i + 1;
        }
        if n == 2 {
            let a = &self.epochs[0];
            let b = &self.epochs[1];
            if a.epoch >= b.epoch || bytes32_eq(&a.public_key.0, &b.public_key.0) || a.phase
                == b.phase || ((a.phase == KeyEpochPhase::Prepared || a.phase
                == KeyEpochPhase::MutuallyAttested) && (b.phase == KeyEpochPhase::Prepared
                || b.phase == KeyEpochPhase::MutuallyAttested)) {
                return Err(KeyAuthorityError::InvalidDurableState);
            }
        }
        let mut has_draining = false;
        let mut has_active = false;
        let mut k: usize = 0;
        while k < n
            invariant
                n == self.epochs@.len(),
                k <= n,
                has_draining == (exists|j: int|
                    0 <= j < k && #[trigger] self.epochs@[j].phase == KeyEpochPhase::Draining),
                has_active == (exists|j: int|
                    0 <= j < k && #[trigger] self.epochs@[j].phase == KeyEpochPhase::Active),
            decreases n - k,
        {
            if self.epochs[k].phase == KeyEpochPhase::Draining {
                has_draining = true;
            }
            if self.epochs[k].phase == KeyEpochPhase::Active {
                has_active = true;
            }
            k = k + 1;
        }
        if has_draining && !has_active {
            return Err(KeyAuthorityError::InvalidDurableState);
        }
        Ok(())
    }
}

} // verus!

verus! {

/// A source of fresh WireGuard private keys.
pub trait WireGuardKeyGenerator {
    /// Generates a fresh private key from a cryptographically secure source.
    fn generate(&mut self) -> Result<WireGuardPrivateKey, KeyAuthorityError>;
}

/// Calls `getrandom::fill` on a 32-byte buffer; nothing is promised of the
/// bytes, which come from the operating system's random source.
#[verifier::external_body]
fn os_random_32() -> (r: Result<[u8; 32], getrandom::Error>) {
    let mut bytes = [0u8; 32];
    match getrandom::fill(&mut bytes) {
        Ok(()) => Ok(bytes),
        Err(error) => Err(error),
    }
}

#[verifier::external_type_specification]
#[verifier::external_body]
pub struct ExGetrandomError(getrandom::Error);

/// Renders an entropy failure through its `Display` implementation.
#[verifier::external_body]
fn entropy_error_text(error: &getrandom::Error) -> String {
    error.to_string()
}

/// Generates keys from the operating-system CSPRNG.
#[derive(Debug, Default)]
pub struct OsWireGuardKeyGenerator;

/// The key drawn from 32 random bytes, or the entropy failure: any secret
/// but the all-zero one becomes a key.
fn key_from_entropy(drawn: Result<[u8; 32], getrandom::Error>) -> (r: Result<WireGuardPrivateKey, KeyAuthorityError>)
    ensures
        match drawn {
            Ok(bytes) => (r is Ok <==> !crate::digest::all_zero(bytes@)) && (match r {
                Ok(key) => key.secret() == bytes@ && key.wf(),
                Err(e) => e is InvalidPrivateKey,
            }),
            Err(_) => r matches Err(e) && e is EntropyUnavailable,
        },
{
    match drawn {
        Ok(bytes) => WireGuardPrivateKey::from_bytes(bytes),
        Err(error) => Err(KeyAuthorityError::EntropyUnavailable(entropy_error_text(&error))),
    }
}

impl WireGuardKeyGenerator for OsWireGuardKeyGenerator {
    /// Draws 32 bytes from the operating system; every key it returns is
    /// nonzero, and it fails only for lack of entropy or an all-zero draw.
    fn generate(&mut self) -> (r: Result<WireGuardPrivateKey, KeyAuthorityError>)
        ensures
            r matches Ok(key) ==> key.wf(),
            r matches Err(e) ==> e is EntropyUnavailable || e is InvalidPrivateKey,
    {
        key_from_entropy(os_random_32())
    }
}

impl NodeKeyAuthority {
    pub closed spec fn cluster_id_spec(&self) -> Seq<char> {
        self.cluster_id@
    }

    pub closed spec fn node_name_spec(&self) -> Seq<char> {
        self.node_name@
    }

    pub closed spec fn node_uid_spec(&self) -> Seq<char> {
        self.node_uid@
    }

    pub closed spec fn key_revision_spec(&self) -> u64 {
        self.key_revision.0
    }

    pub closed spec fn next_epoch_spec(&self) -> u64 {
        self.next_epoch
    }

    pub closed spec fn retired_through_spec(&self) -> u64 {
        self.retired_through_epoch
    }

    pub closed spec fn revoked_through_spec(&self) -> u64 {
        self.revoked_through_epoch
    }

    pub closed spec fn epochs_spec(&self) -> Seq<LocalKeyEpoch> {
        self.epochs@
    }

    /// Creates an empty authority bound to one immutable Node identity.
    pub fn new(cluster_id: String, node_name: String, node_uid: String) -> (r: Result<
        Self,
        KeyAuthorityError,
    >)
        ensures
            r is Ok <==> identity_ok(cluster_id@, node_name@, node_uid@),
            r matches Ok(a) ==> {
                &&& authority_ok(a)
                &&& a.cluster_id_spec() == cluster_id@
                &&& a.node_name_spec() == node_name@
                &&& a.node_uid_spec() == node_uid@
                &&& a.key_revision_spec() == 0
                &&& a.next_epoch_spec() == 1
                &&& a.retired_through_spec() == 0
                &&& a.revoked_through_spec() == 0
                &&& a.epochs_spec().len() == 0
            },
            r is Err ==> r->Err_0 is InvalidIdentity,
    {
        validate_identity(cluster_id.as_str(), node_name.as_str(), node_uid.as_str())?;
        Ok(NodeKeyAuthority {
            schema_version: NODE_KEY_AUTHORITY_SCHEMA_VERSION,
            cluster_id,
            node_name,
            node_uid,
            key_revision: Revision(0),
            next_epoch: 1,
            retired_through_epoch: 0,
            revoked_through_epoch: 0,
            epochs: Vec::new(),
        })
    }

    pub fn cluster_id(&self) -> (r: &str)
        ensures
            r@ == self.cluster_id_spec(),
    {
        self.cluster_id.as_str()
    }

    pub fn node_name(&self) -> (r: &str)
        ensures
            r@ == self.node_name_spec(),
    {
        self.node_name.as_str()
    }

    pub fn node_uid(&self) -> (r: &str)
        ensures
            r@ == self.node_uid_spec(),
    {
        self.node_uid.as_str()
    }

    pub fn key_revision(&self) -> (r: Revision)
        ensures
            r.0 == self.key_revision_spec(),
    {
        self.key_revision
    }

    pub fn epochs(&self) -> (r: &[LocalKeyEpoch])
        ensures
            r@ == self.epochs_spec(),
    {
        self.epochs.as_slice()
    }

    /// The whole authority is consistent.
    pub fn is_consistent(&self) -> (r: bool)
        ensures
            r == authority_ok(*self),
    {
        self.validate().is_ok()
    }
}

} // verus!

verus! {

/// The distinct peers of a requested frontier form a valid barrier frontier.
pub open spec fn peer_set_ok(target: Seq<char>, peers: Seq<String>) -> bool {
    let s = texts_view(peers).to_set();
    &&& s.len() <= MAX_ROTATION_PEERS
    &&& forall|x: Seq<char>| s.contains(x) ==> key_text(x) && x != target
}

/// Room for one more epoch: fewer than two epochs, none of them pending.
pub closed spec fn prepare_capacity_ok(old: NodeKeyAuthority) -> bool {
    &&& old.epochs@.len() < 2
    &&& forall|i: int| 0 <= i < old.epochs@.len() ==> !pending_phase(#[trigger] old.epochs@[i].phase)
}

/// The preconditions that `prepare_epoch` checks before generating a key.
pub closed spec fn prepare_admissible(old: NodeKeyAuthority, from: u64, until: u64) -> bool {
    &&& authority_ok(old)
    &&& prepare_capacity_ok(old)
    &&& lifetime_ok(from, until)
}

/// The remaining preconditions once a fresh key exists.
pub closed spec fn prepare_key_admissible(
    old: NodeKeyAuthority,
    topology_revision: Revision,
    peers: Seq<String>,
    public_key: Seq<u8>,
) -> bool {
    &&& forall|i: int| 0 <= i < old.epochs@.len() ==> (#[trigger] old.epochs@[i]).public_key.0@ != public_key
    &&& !all_zero(public_key)
    &&& peer_set_ok(old.node_uid@, peers)
    &&& topology_revision.0 != 0
    &&& old.next_epoch < u64::MAX
    &&& old.key_revision.0 < u64::MAX
}

/// `new` is `old` with one freshly prepared epoch appended.
pub closed spec fn prepared_successor(
    old: NodeKeyAuthority,
    new: NodeKeyAuthority,
    epoch: u64,
    topology_revision: Revision,
    peers: Seq<String>,
    from: u64,
    until: u64,
) -> bool {
    let e = new.epochs@.last();
    &&& epoch == old.next_epoch
    &&& new.schema_version == old.schema_version
    &&& new.cluster_id == old.cluster_id
    &&& new.node_name == old.node_name
    &&& new.node_uid == old.node_uid
    &&& new.key_revision.0 == old.key_revision.0 + 1
    &&& new.next_epoch == old.next_epoch + 1
    &&& new.retired_through_epoch == old.retired_through_epoch
    &&& new.revoked_through_epoch == old.revoked_through_epoch
    &&& new.epochs@.len() == old.epochs@.len() + 1
    &&& new.epochs@.drop_last() == old.epochs@
    &&& e.epoch == epoch
    &&& e.valid_from_unix_ms == from
    &&& e.valid_until_unix_ms == until
    &&& e.public_key.0@ == x25519_public_spec(e.private_key.secret())
    &&& e.private_key.wf()
    &&& e.barrier.target_node_uid == old.node_uid
    &&& e.barrier.epoch == epoch
    &&& e.barrier.topology_revision == topology_revision
    &&& e.barrier.valid_until_unix_ms == until
    &&& barrier_ok(e.barrier)
    &&& texts_view(e.barrier.required_peer_uids@).to_set() == texts_view(peers).to_set()
    &&& e.acknowledgements@.len() == 0
    &&& e.drain_deadline_unix_ms is None
    &&& if e.barrier.required_peer_uids@.len() == 0 {
        e.phase == KeyEpochPhase::MutuallyAttested && e.readiness is Some
    } else {
        e.phase == KeyEpochPhase::Prepared && e.readiness is None
    }
}

proof fn lemma_strictly_sorted_no_duplicates(v: Seq<Seq<char>>)
    requires
        strictly_sorted(v),
    ensures
        v.no_duplicates(),
{
    assert forall|i: int, j: int| 0 <= i < v.len() && 0 <= j < v.len() && i != j implies v[i]
        != v[j] by {
        if i < j {
            assert(text_lt(v[i], v[j]));
        } else {
            assert(text_lt(v[j], v[i]));
        }
        crate::text::lemma_text_order_eq(v[i], v[j]);
    }
}

/// A canonical frontier built from a requested peer list is valid exactly
/// when the requested peer set is.
proof fn lemma_canonical_frontier(target: Seq<char>, canon: Seq<Seq<char>>, peers: Seq<String>)
    requires
        strictly_sorted(canon),
        canon.to_set() == texts_view(peers).to_set(),
    ensures
        frontier_ok(target, canon) == peer_set_ok(target, peers),
{
    lemma_strictly_sorted_no_duplicates(canon);
    canon.unique_seq_to_set();
    let s = texts_view(peers).to_set();
    assert forall|i: int| 0 <= i < canon.len() implies s.contains(#[trigger] canon[i]) by {
        assert(canon.to_set().contains(canon[i]));
    }
    if frontier_ok(target, canon) {
        assert forall|x: Seq<char>| s.contains(x) implies key_text(x) && x != target by {
            assert(canon.to_set().contains(x));
            let k = choose|k: int| 0 <= k < canon.len() && canon[k] == x;
            assert(key_text(canon[k]));
        }
    }
}

impl NodeKeyAuthority {
    /// Some held epoch has this public key.
    pub closed spec fn holds_public_key(&self, key: Seq<u8>) -> bool {
        exists|i: int| 0 <= i < self.epochs@.len() && (#[trigger] self.epochs@[i]).public_key.0@ == key
    }

    fn has_pending_epoch(&self) -> (r: bool)
        ensures
            r == (exists|i: int| 0 <= i < self.epochs@.len() && pending_phase(#[trigger] self.epochs@[i].phase)),
    {
        let mut i: usize = 0;
        while i < self.epochs.len()
            invariant
                i <= self.epochs@.len(),
                forall|j: int| 0 <= j < i ==> !pending_phase(#[trigger] self.epochs@[j].phase),
            decreases self.epochs@.len() - i,
        {
            if self.epochs[i].phase == KeyEpochPhase::Prepared || self.epochs[i].phase
                == KeyEpochPhase::MutuallyAttested {
                return true;
            }
            i = i + 1;
        }
        false
    }

    fn has_public_key(&self, key: &WireGuardPublicKey) -> (r: bool)
        ensures
            r == (exists|i: int| 0 <= i < self.epochs@.len() && (#[trigger] self.epochs@[i]).public_key.0@ == key.0@),
    {
        let mut i: usize = 0;
        while i < self.epochs.len()
            invariant
                i <= self.epochs@.len(),
                forall|j: int| 0 <= j < i ==> (#[trigger] self.epochs@[j]).public_key.0@ != key.0@,
            decreases self.epochs@.len() - i,
        {
            if bytes32_eq(&self.epochs[i].public_key.0, &key.0) {
                return true;
            }
            i = i + 1;
        }
        false
    }

    /// Stages one epoch for an already generated private key behind an exact
    /// causal peer barrier. A barrier with no peers is immediately attested.
    pub fn prepare_epoch_with_key(
        &mut self,
        topology_revision: Revision,
        required_peer_uids: Vec<String>,
        valid_from_unix_ms: u64,
        valid_until_unix_ms: u64,
        private_key: WireGuardPrivateKey,
    ) -> (r: Result<u64, KeyAuthorityError>)
        requires
            private_key.wf(),
        ensures
            r is Ok <==> prepare_admissible(*old(self), valid_from_unix_ms, valid_until_unix_ms)
                && prepare_key_admissible(
                *old(self),
                topology_revision,
                required_peer_uids@,
                x25519_public_spec(private_key.secret()),
            ),
            r matches Ok(epoch) ==> {
                &&& prepared_successor(
                    *old(self),
                    *final(self),
                    epoch,
                    topology_revision,
                    required_peer_uids@,
                    valid_from_unix_ms,
                    valid_until_unix_ms,
                )
                &&& final(self).epochs_spec().last().secret_spec() == private_key.secret()
                &&& authority_ok(*final(self))
            },
            r is Err ==> *final(self) == *old(self),
            authority_ok(*old(self)) && !prepare_admissible(*old(self), valid_from_unix_ms, valid_until_unix_ms) ==> (r is Err && (
            r->Err_0 is EpochCapacityOrTransition || r->Err_0 is InvalidLifetime)),
            authority_ok(*old(self)) && !prepare_capacity_ok(*old(self)) ==> r == Err::<u64, KeyAuthorityError>(
                KeyAuthorityError::EpochCapacityOrTransition,
            ),
            authority_ok(*old(self)) && prepare_capacity_ok(*old(self)) && !lifetime_ok(valid_from_unix_ms, valid_until_unix_ms)
                ==> r == Err::<u64, KeyAuthorityError>(KeyAuthorityError::InvalidLifetime),
            prepare_admissible(*old(self), valid_from_unix_ms, valid_until_unix_ms) && old(self).holds_public_key(x25519_public_spec(private_key.secret())) ==> (r is Err && r->Err_0 is DuplicatePublicKey),
    {
        self.validate()?;
        if self.epochs.len() >= 2 || self.has_pending_epoch() {
            return Err(KeyAuthorityError::EpochCapacityOrTransition);
        }
        validate_lifetime(valid_from_unix_ms, valid_until_unix_ms)?;
        let public_key = private_key.public_key();
        if self.has_public_key(&public_key) {
            return Err(KeyAuthorityError::DuplicatePublicKey);
        }
        if bytes32_is_zero(&public_key.0) {
            return Err(KeyAuthorityError::InvalidPrivateKey);
        }
        let peers = crate::text::canonical_text_set(required_peer_uids);
        let epoch = self.next_epoch;
        let barrier = CausalEpochBarrier::issue(
            self.node_uid.clone(),
            epoch,
            public_key,
            topology_revision,
            peers,
            valid_until_unix_ms,
        );
        proof {
            lemma_canonical_frontier(self.node_uid@, texts_view(peers@), required_peer_uids@);
        }
        let barrier = barrier?;
        if epoch == u64::MAX {
            return Err(KeyAuthorityError::EpochOverflow);
        }
        if self.key_revision.0 == u64::MAX {
            return Err(KeyAuthorityError::RevisionOverflow);
        }
        let immediately_ready = barrier.required_peer_uids.len() == 0;
        let mut local = LocalKeyEpoch {
            epoch,
            public_key,
            private_key,
            valid_from_unix_ms,
            valid_until_unix_ms,
            phase: KeyEpochPhase::Prepared,
            barrier,
            acknowledgements: Vec::new(),
            readiness: None,
            drain_deadline_unix_ms: None,
        };
        if immediately_ready {
            assert(texts_view(ack_peers(local.acknowledgements@)) =~= texts_view(local.barrier.required_peer_uids@));
            let certificate = issue_readiness_certificate(&local);
            match certificate {
                Ok(c) => {
                    local.readiness = Some(c);
                    local.phase = KeyEpochPhase::MutuallyAttested;
                },
                Err(e) => {
                    return Err(e);
                },
            }
        }
        let ghost old_self = *self;
        proof {
            assert(epoch_ok(self.node_uid@, local));
        }
        self.epochs.push(local);
        self.next_epoch = epoch + 1;
        self.key_revision = Revision(self.key_revision.0 + 1);
        proof {
            let es = self.epochs@;
            assert(es.drop_last() =~= old_self.epochs@);
            assert forall|i: int| 0 <= i < es.len() implies {
                &&& epoch_ok(self.node_uid@, #[trigger] es[i])
                &&& 0 < es[i].epoch < self.next_epoch
                &&& es[i].epoch > self.retired_through_epoch
                &&& es[i].epoch > self.revoked_through_epoch
            } by {
                if i < old_self.epochs@.len() {
                    assert(es[i] == old_self.epochs@[i]);
                }
            }
            if old_self.epochs@.len() == 1 {
                let o = old_self.epochs@[0];
                assert(es[0] == o);
                assert(!pending_phase(o.phase));
                if o.phase == KeyEpochPhase::Draining {
                    assert(exists|j: int| 0 <= j < old_self.epochs@.len() && #[trigger] old_self.epochs@[j].phase == KeyEpochPhase::Draining);
                }
                assert(es[0].epoch < es[1].epoch);
                assert(es[0].public_key.0@ != es[1].public_key.0@);
            }
            if exists|i: int| 0 <= i < es.len() && #[trigger] es[i].phase == KeyEpochPhase::Draining {
                let i = choose|i: int| 0 <= i < es.len() && #[trigger] es[i].phase == KeyEpochPhase::Draining;
                assert(i < old_self.epochs@.len());
                assert(old_self.epochs@[i].phase == KeyEpochPhase::Draining);
                let j = choose|j: int| 0 <= j < old_self.epochs@.len() && #[trigger] old_self.epochs@[j].phase == KeyEpochPhase::Active;
                assert(es[j].phase == KeyEpochPhase::Active);
            }
        }
        Ok(epoch)
    }

    /// Generates a fresh key and stages it behind an exact causal peer barrier.
    /// The lifecycle and lifetime are checked before any entropy is drawn.
    pub fn prepare_epoch<G: WireGuardKeyGenerator>(
        &mut self,
        topology_revision: Revision,
        required_peer_uids: Vec<String>,
        valid_from_unix_ms: u64,
        valid_until_unix_ms: u64,
        generator: &mut G,
    ) -> (r: Result<u64, KeyAuthorityError>)
        ensures
            r is Ok ==> prepare_admissible(*old(self), valid_from_unix_ms, valid_until_unix_ms),
            r matches Ok(epoch) ==> {
                &&& prepared_successor(
                    *old(self),
                    *final(self),
                    epoch,
                    topology_revision,
                    required_peer_uids@,
                    valid_from_unix_ms,
                    valid_until_unix_ms,
                )
                &&& prepare_key_admissible(
                    *old(self),
                    topology_revision,
                    required_peer_uids@,
                    final(self).epochs_spec().last().public_key_spec(),
                )
                &&& authority_ok(*final(self))
            },
            r is Err ==> *final(self) == *old(self),
            authority_ok(*old(self)) && !prepare_admissible(*old(self), valid_from_unix_ms, valid_until_unix_ms) ==> (r is Err && (
            r->Err_0 is EpochCapacityOrTransition || r->Err_0 is InvalidLifetime)),
            authority_ok(*old(self)) && !prepare_capacity_ok(*old(self)) ==> r == Err::<u64, KeyAuthorityError>(
                KeyAuthorityError::EpochCapacityOrTransition,
            ),
            authority_ok(*old(self)) && prepare_capacity_ok(*old(self)) && !lifetime_ok(valid_from_unix_ms, valid_until_unix_ms)
                ==> r == Err::<u64, KeyAuthorityError>(KeyAuthorityError::InvalidLifetime),
            !prepare_admissible(*old(self), valid_from_unix_ms, valid_until_unix_ms) ==> *final(generator) == *old(
                generator,
            ),
    {
        self.validate()?;
        if self.epochs.len() >= 2 || self.has_pending_epoch() {
            return Err(KeyAuthorityError::EpochCapacityOrTransition);
        }
        validate_lifetime(valid_from_unix_ms, valid_until_unix_ms)?;
        let private_key = generator.generate()?;
        if !private_key.is_nonzero() {
            return Err(KeyAuthorityError::InvalidPrivateKey);
        }
        let r = self.prepare_epoch_with_key(
            topology_revision,
            required_peer_uids,
            valid_from_unix_ms,
            valid_until_unix_ms,
            private_key,
        );
        proof {
            if r is Ok {
                let e = self.epochs@.last();
                assert(e.public_key.0@ == x25519_public_spec(e.private_key.secret()));
            }
        }
        r
    }
}

} // verus!

verus! {

/// Inserts an acknowledgement for a new peer, keeping peers strictly increasing.
fn insert_ack_sorted(v: &mut Vec<PeerEpochAcknowledgement>, k: PeerEpochAcknowledgement) -> (pos: usize)
    requires
        strictly_sorted(texts_view(ack_peers(old(v)@))),
        !texts_view(ack_peers(old(v)@)).contains(k.peer_node_uid@),
    ensures
        pos <= old(v)@.len(),
        final(v)@ == old(v)@.insert(pos as int, k),
        strictly_sorted(texts_view(ack_peers(final(v)@))),
{
    let n = v.len();
    let mut p: usize = 0;
    while p < n && compare_text(v[p].peer_node_uid.as_str(), k.peer_node_uid.as_str()) < 0
        invariant
            n == v@.len(),
            v@ == old(v)@,
            p <= n,
            forall|j: int| 0 <= j < p ==> text_lt(#[trigger] v@[j].peer_node_uid@, k.peer_node_uid@),
        decreases n - p,
    {
        p = p + 1;
    }
    let ghost ov = v@;
    proof {
        if p < n {
            assert(texts_view(ack_peers(ov))[p as int] == ov[p as int].peer_node_uid@);
            crate::text::lemma_text_total(ov[p as int].peer_node_uid@, k.peer_node_uid@);
        }
    }
    v.insert(p, k);
    proof {
        let o = texts_view(ack_peers(ov));
        let nv = texts_view(ack_peers(v@));
        let s = k.peer_node_uid@;
        assert(v@ == ov.insert(p as int, k));
        assert(nv.len() == o.len() + 1);
        assert forall|j: int| 0 <= j < p implies nv[j] == o[j] && text_lt(#[trigger] o[j], s) by {
            assert(nv[j] == v@[j].peer_node_uid@);
            assert(o[j] == ov[j].peer_node_uid@);
        }
        assert forall|j: int| p < j < nv.len() implies #[trigger] nv[j] == o[j - 1] by {
            assert(nv[j] == v@[j].peer_node_uid@);
            assert(v@[j] == ov[j - 1]);
            assert(o[j - 1] == ov[j - 1].peer_node_uid@);
        }
        assert(nv[p as int] == v@[p as int].peer_node_uid@);
        assert(nv[p as int] == s);
        if p < n {
            assert(o[p as int] == ov[p as int].peer_node_uid@);
            assert(o[p as int] != s);
            assert(text_lt(s, o[p as int]));
        }
        assert forall|j: int| p <= j < o.len() implies text_lt(s, #[trigger] o[j]) by {
            if j > p {
                crate::text::lemma_text_lt_transitive(s, o[p as int], o[j]);
            }
        }
        assert forall|a: int, b: int| 0 <= a < b < nv.len() implies text_lt(
            #[trigger] nv[a],
            #[trigger] nv[b],
        ) by {
            if b == p {
                assert(nv[a] == o[a]);
            } else if a == p {
                assert(nv[b] == o[b - 1]);
            } else if a < p && b > p {
                assert(nv[a] == o[a]);
                assert(nv[b] == o[b - 1]);
                crate::text::lemma_text_lt_transitive(o[a], s, nv[b]);
            } else if a > p {
                assert(nv[a] == o[a - 1]);
                assert(nv[b] == o[b - 1]);
            } else {
                assert(nv[a] == o[a]);
                assert(nv[b] == o[b]);
            }
        }
    }
    p
}

/// Index of the held epoch numbered `epoch`, if any.
pub closed spec fn epoch_position(a: NodeKeyAuthority, epoch: u64) -> Option<int> {
    if exists|i: int| 0 <= i < a.epochs@.len() && (#[trigger] a.epochs@[i]).epoch == epoch {
        Some(choose|i: int| 0 <= i < a.epochs@.len() && (#[trigger] a.epochs@[i]).epoch == epoch)
    } else {
        None
    }
}

/// The epoch numbered `epoch` exists and is still prepared.
pub closed spec fn epoch_prepared(a: NodeKeyAuthority, epoch: u64) -> bool {
    epoch_position(a, epoch) matches Some(i) && a.epochs@[i].phase == KeyEpochPhase::Prepared
}

/// The checks that an acknowledgement must pass before it is recorded.
pub closed spec fn ack_admissible(
    old: NodeKeyAuthority,
    authenticated: Seq<char>,
    k: PeerEpochAcknowledgement,
    now: u64,
) -> bool {
    &&& authority_ok(old)
    &&& authenticated == k.peer_node_uid@
    &&& epoch_position(old, k.epoch) matches Some(i) && {
        let e = old.epochs@[i];
        &&& e.phase == KeyEpochPhase::Prepared
        &&& k.target_node_uid@ == old.node_uid@
        &&& k.barrier_digest.0@ == e.barrier.barrier_digest.0@
        &&& k.peer_public_epoch != 0
        &&& k.observed_at_unix_ms != 0
        &&& k.observed_at_unix_ms <= now
        &&& now <= e.barrier.valid_until_unix_ms
        &&& texts_view(e.barrier.required_peer_uids@).contains(authenticated)
    }
}

/// The peer has already acknowledged the epoch named by `k`.
pub closed spec fn ack_already_recorded(old: NodeKeyAuthority, k: PeerEpochAcknowledgement) -> bool {
    epoch_position(old, k.epoch) matches Some(i) && texts_view(
        ack_peers(old.epochs@[i].acknowledgements@),
    ).contains(k.peer_node_uid@)
}

/// The peer has already recorded exactly `k`.
pub closed spec fn ack_replayed(old: NodeKeyAuthority, k: PeerEpochAcknowledgement) -> bool {
    epoch_position(old, k.epoch) matches Some(i) && exists|j: int|
        0 <= j < old.epochs@[i].acknowledgements@.len() && ack_same(
            #[trigger] old.epochs@[i].acknowledgements@[j],
            k,
        )
}

/// `new` records `k` in its epoch; the epoch becomes mutually attested once
/// every barrier peer has acknowledged it.
pub closed spec fn acknowledged_successor(
    old: NodeKeyAuthority,
    new: NodeKeyAuthority,
    k: PeerEpochAcknowledgement,
) -> bool {
    epoch_position(old, k.epoch) matches Some(i) && {
        let o = old.epochs@[i];
        let e = new.epochs@[i];
        &&& new.schema_version == old.schema_version
        &&& new.cluster_id == old.cluster_id
        &&& new.node_name == old.node_name
        &&& new.node_uid == old.node_uid
        &&& new.key_revision.0 == old.key_revision.0 + 1
        &&& new.next_epoch == old.next_epoch
        &&& new.retired_through_epoch == old.retired_through_epoch
        &&& new.revoked_through_epoch == old.revoked_through_epoch
        &&& new.epochs@.len() == old.epochs@.len()
        &&& forall|j: int| 0 <= j < old.epochs@.len() && j != i ==> new.epochs@[j] == old.epochs@[j]
        &&& e.epoch == o.epoch
        &&& e.public_key == o.public_key
        &&& e.private_key == o.private_key
        &&& e.valid_from_unix_ms == o.valid_from_unix_ms
        &&& e.valid_until_unix_ms == o.valid_until_unix_ms
        &&& e.barrier == o.barrier
        &&& e.drain_deadline_unix_ms == o.drain_deadline_unix_ms
        &&& exists|q: int| 0 <= q <= o.acknowledgements@.len() && e.acknowledgements@
            == o.acknowledgements@.insert(q, k)
        &&& if acks_complete(e) {
            e.phase == KeyEpochPhase::MutuallyAttested && e.readiness is Some
        } else {
            e.phase == KeyEpochPhase::Prepared && e.readiness is None
        }
    }
}

proof fn lemma_epoch_position_unique(a: NodeKeyAuthority, epoch: u64, p: int)
    requires
        authority_ok(a),
        0 <= p < a.epochs@.len(),
        a.epochs@[p].epoch == epoch,
    ensures
        epoch_position(a, epoch) == Some(p),
{
    let es = a.epochs@;
    assert(exists|i: int| 0 <= i < es.len() && (#[trigger] es[i]).epoch == epoch);
    let c = choose|i: int| 0 <= i < es.len() && (#[trigger] es[i]).epoch == epoch;
    if c < p {
        assert(es[c].epoch < es[p].epoch);
    } else if c > p {
        assert(es[p].epoch < es[c].epoch);
    }
}

/// Replacing one pending epoch by another consistent pending epoch with the
/// same number and key keeps the authority consistent.
proof fn lemma_replace_pending_epoch(old: NodeKeyAuthority, new: NodeKeyAuthority, pos: int)
    requires
        authority_ok(old),
        0 <= pos < old.epochs@.len(),
        new.schema_version == old.schema_version,
        new.cluster_id == old.cluster_id,
        new.node_name == old.node_name,
        new.node_uid == old.node_uid,
        new.next_epoch == old.next_epoch,
        new.retired_through_epoch == old.retired_through_epoch,
        new.revoked_through_epoch == old.revoked_through_epoch,
        new.epochs@ == old.epochs@.update(pos, new.epochs@[pos]),
        epoch_ok(new.node_uid@, new.epochs@[pos]),
        new.epochs@[pos].epoch == old.epochs@[pos].epoch,
        new.epochs@[pos].public_key == old.epochs@[pos].public_key,
        pending_phase(old.epochs@[pos].phase),
        pending_phase(new.epochs@[pos].phase),
    ensures
        authority_ok(new),
{
    let es = new.epochs@;
    let os = old.epochs@;
    assert forall|i: int| 0 <= i < es.len() implies {
        &&& epoch_ok(new.node_uid@, #[trigger] es[i])
        &&& 0 < es[i].epoch < new.next_epoch
        &&& es[i].epoch > new.retired_through_epoch
        &&& es[i].epoch > new.revoked_through_epoch
    } by {
        if i != pos {
            assert(es[i] == os[i]);
        }
    }
    assert forall|i: int, j: int| 0 <= i < j < es.len() implies {
        &&& (#[trigger] es[i]).epoch < (#[trigger] es[j]).epoch
        &&& es[i].public_key.0@ != es[j].public_key.0@
        &&& es[i].phase != es[j].phase
        &&& !(pending_phase(es[i].phase) && pending_phase(es[j].phase))
    } by {
        assert(os[i].epoch < os[j].epoch);
        if i != pos {
            assert(es[i] == os[i]);
        }
        if j != pos {
            assert(es[j] == os[j]);
        }
    }
    if exists|i: int| 0 <= i < es.len() && #[trigger] es[i].phase == KeyEpochPhase::Draining {
        let i = choose|i: int| 0 <= i < es.len() && #[trigger] es[i].phase == KeyEpochPhase::Draining;
        assert(i != pos);
        assert(os[i].phase == KeyEpochPhase::Draining);
        let j = choose|j: int| 0 <= j < os.len() && #[trigger] os[j].phase == KeyEpochPhase::Active;
        assert(j != pos);
        assert(es[j].phase == KeyEpochPhase::Active);
    }
}

impl NodeKeyAuthority {
    fn find_epoch(&self, epoch: u64) -> (r: Option<usize>)
        requires
            authority_ok(*self),
        ensures
            match r {
                Some(p) => epoch_position(*self, epoch) == Some(p as int) && p < self.epochs@.len(),
                None => epoch_position(*self, epoch) is None,
            },
    {
        let mut i: usize = 0;
        while i < self.epochs.len()
            invariant
                authority_ok(*self),
                i <= self.epochs@.len(),
                forall|j: int| 0 <= j < i ==> (#[trigger] self.epochs@[j]).epoch != epoch,
            decreases self.epochs@.len() - i,
        {
            if self.epochs[i].epoch == epoch {
                proof {
                    lemma_epoch_position_unique(*self, epoch, i as int);
                }
                return Some(i);
            }
            i = i + 1;
        }
        None
    }

    fn find_ack(v: &Vec<PeerEpochAcknowledgement>, peer: &str) -> (r: Option<usize>)
        ensures
            match r {
                Some(p) => p < v@.len() && v@[p as int].peer_node_uid@ == peer@,
                None => !texts_view(ack_peers(v@)).contains(peer@),
            },
    {
        let mut i: usize = 0;
        while i < v.len()
            invariant
                i <= v@.len(),
                forall|j: int| 0 <= j < i ==> (#[trigger] v@[j]).peer_node_uid@ != peer@,
            decreases v@.len() - i,
        {
            if text_eq(v[i].peer_node_uid.as_str(), peer) {
                return Some(i);
            }
            i = i + 1;
        }
        proof {
            if texts_view(ack_peers(v@)).contains(peer@) {
                let j = choose|j: int| 0 <= j < texts_view(ack_peers(v@)).len() && texts_view(ack_peers(v@))[j] == peer@;
                assert(v@[j].peer_node_uid@ == peer@);
            }
        }
        None
    }

    /// Records an admissible acknowledgement of a new peer in epoch `pos`.
    #[verifier::rlimit(30)]
    fn apply_acknowledgement(&mut self, pos: usize, acknowledgement: PeerEpochAcknowledgement, now_unix_ms: u64)
        requires
            ack_admissible(*old(self), acknowledgement.peer_node_uid@, acknowledgement, now_unix_ms),
            epoch_position(*old(self), acknowledgement.epoch) == Some(pos as int),
            pos < old(self).epochs@.len(),
            !ack_already_recorded(*old(self), acknowledgement),
            old(self).key_revision.0 < u64::MAX,
        ensures
            acknowledged_successor(*old(self), *final(self), acknowledgement),
            authority_ok(*final(self)),
    {
        proof {
            let ghost ks = old(self).epochs@[pos as int].acknowledgements@;
            assert(!texts_view(ack_peers(ks)).contains(acknowledgement.peer_node_uid@));
        }
        let ghost old_self = *self;
        let mut local = self.epochs.remove(pos);
        let ghost old_local = local;
        assert(local == old_self.epochs@[pos as int]);
        let q = insert_ack_sorted(&mut local.acknowledgements, acknowledgement);
        if local.acknowledgements.len() == local.barrier.required_peer_uids.len() {
            proof {
                let ap = texts_view(ack_peers(local.acknowledgements@));
                let rp = texts_view(local.barrier.required_peer_uids@);
                assert forall|i: int| 0 <= i < ap.len() implies rp.contains(#[trigger] ap[i]) by {
                    assert(ap[i] == local.acknowledgements@[i].peer_node_uid@);
                    if i < q {
                        assert(local.acknowledgements@[i] == old_local.acknowledgements@[i]);
                        assert(ack_fits(old_self.node_uid@, old_local, old_local.acknowledgements@[i]));
                    } else if i > q {
                        assert(local.acknowledgements@[i] == old_local.acknowledgements@[i - 1]);
                        assert(ack_fits(old_self.node_uid@, old_local, old_local.acknowledgements@[i - 1]));
                    }
                }
                crate::text::lemma_sorted_subset_eq(ap, rp);
            }
            match issue_readiness_certificate(&local) {
                Ok(c) => {
                    local.readiness = Some(c);
                    local.phase = KeyEpochPhase::MutuallyAttested;
                },
                Err(_) => {
                    proof {
                        assert(false);
                    }
                    return;
                },
            }
        }
        proof {
            assert forall|i: int| 0 <= i < local.acknowledgements@.len() implies ack_fits(
                old_self.node_uid@,
                local,
                #[trigger] local.acknowledgements@[i],
            ) by {
                if i < q {
                    assert(local.acknowledgements@[i] == old_local.acknowledgements@[i]);
                    assert(ack_fits(old_self.node_uid@, old_local, old_local.acknowledgements@[i]));
                } else if i > q {
                    assert(local.acknowledgements@[i] == old_local.acknowledgements@[i - 1]);
                    assert(ack_fits(old_self.node_uid@, old_local, old_local.acknowledgements@[i - 1]));
                }
            }
            assert(epoch_ok(old_self.node_uid@, local));
        }
        self.epochs.insert(pos, local);
        self.key_revision = Revision(self.key_revision.0 + 1);
        proof {
            assert(self.epochs@ =~= old_self.epochs@.update(pos as int, local));
            lemma_replace_pending_epoch(old_self, *self, pos as int);
            assert(local.acknowledgements@ == old_local.acknowledgements@.insert(q as int, acknowledgement));
        }
    }

    /// Records an acknowledgement authenticated as the exact peer Node UID.
    /// Returns `false` for an exact idempotent replay.
    pub fn acknowledge_epoch(
        &mut self,
        authenticated_peer_node_uid: &str,
        acknowledgement: PeerEpochAcknowledgement,
        now_unix_ms: u64,
    ) -> (r: Result<bool, KeyAuthorityError>)
        ensures
            r matches Ok(changed) ==> ack_admissible(*old(self), authenticated_peer_node_uid@, acknowledgement, now_unix_ms)
                && changed == !ack_already_recorded(*old(self), acknowledgement),
            r == Ok::<bool, KeyAuthorityError>(false) <==> ack_admissible(*old(self), authenticated_peer_node_uid@, acknowledgement, now_unix_ms)
                && ack_replayed(*old(self), acknowledgement),
            r == Ok::<bool, KeyAuthorityError>(true) <==> ack_admissible(*old(self), authenticated_peer_node_uid@, acknowledgement, now_unix_ms)
                && !ack_already_recorded(*old(self), acknowledgement) && old(self).key_revision_spec() < u64::MAX,
            r == Ok::<bool, KeyAuthorityError>(true) ==> acknowledged_successor(*old(self), *final(self), acknowledgement) && authority_ok(*final(self)),
            r != Ok::<bool, KeyAuthorityError>(true) ==> *final(self) == *old(self),
            ack_admissible(*old(self), authenticated_peer_node_uid@, acknowledgement, now_unix_ms)
                && ack_already_recorded(*old(self), acknowledgement) && !ack_replayed(*old(self), acknowledgement)
                ==> r is Err && r->Err_0 is AcknowledgementMutation,
            authority_ok(*old(self)) && authenticated_peer_node_uid@ != acknowledgement.peer_node_uid@ ==> r
                == Err::<bool, KeyAuthorityError>(KeyAuthorityError::UnauthenticatedPeer),
            authority_ok(*old(self)) && authenticated_peer_node_uid@ == acknowledgement.peer_node_uid@
                && epoch_position(*old(self), acknowledgement.epoch) is None ==> r == Err::<bool, KeyAuthorityError>(
                KeyAuthorityError::UnknownEpoch(acknowledgement.epoch),
            ),
            authority_ok(*old(self)) && authenticated_peer_node_uid@ == acknowledgement.peer_node_uid@
                && epoch_position(*old(self), acknowledgement.epoch) is Some && !epoch_prepared(
                *old(self),
                acknowledgement.epoch,
            ) ==> r == Err::<bool, KeyAuthorityError>(KeyAuthorityError::EpochCapacityOrTransition),
            authority_ok(*old(self)) && authenticated_peer_node_uid@ == acknowledgement.peer_node_uid@
                && epoch_prepared(*old(self), acknowledgement.epoch) && !ack_admissible(
                *old(self),
                authenticated_peer_node_uid@,
                acknowledgement,
                now_unix_ms,
            ) ==> r == Err::<bool, KeyAuthorityError>(KeyAuthorityError::InvalidAcknowledgement),
            ack_admissible(*old(self), authenticated_peer_node_uid@, acknowledgement, now_unix_ms)
                && !ack_already_recorded(*old(self), acknowledgement) && old(self).key_revision_spec() == u64::MAX
                ==> r == Err::<bool, KeyAuthorityError>(KeyAuthorityError::RevisionOverflow),
    {
        self.validate()?;
        if !text_eq(authenticated_peer_node_uid, acknowledgement.peer_node_uid.as_str()) {
            return Err(KeyAuthorityError::UnauthenticatedPeer);
        }
        let pos = match self.find_epoch(acknowledgement.epoch) {
            Some(p) => p,
            None => {
                return Err(KeyAuthorityError::UnknownEpoch(acknowledgement.epoch));
            },
        };
        if self.epochs[pos].phase != KeyEpochPhase::Prepared {
            return Err(KeyAuthorityError::EpochCapacityOrTransition);
        }
        {
            let local = &self.epochs[pos];
            if !text_eq(acknowledgement.target_node_uid.as_str(), self.node_uid.as_str())
                || !bytes32_eq(&acknowledgement.barrier_digest.0, &local.barrier.barrier_digest.0)
                || acknowledgement.peer_public_epoch == 0 || acknowledgement.observed_at_unix_ms == 0
                || acknowledgement.observed_at_unix_ms > now_unix_ms || now_unix_ms
                > local.barrier.valid_until_unix_ms || !contains_text(
                &local.barrier.required_peer_uids,
                authenticated_peer_node_uid,
            ) {
                return Err(KeyAuthorityError::InvalidAcknowledgement);
            }
            match Self::find_ack(&local.acknowledgements, authenticated_peer_node_uid) {
                Some(j) => {
                    let same = ack_equal(&local.acknowledgements[j], &acknowledgement);
                    proof {
                        let ks = local.acknowledgements@;
                        assert(texts_view(ack_peers(ks))[j as int] == ks[j as int].peer_node_uid@);
                        if !same {
                            assert forall|q: int| 0 <= q < ks.len() implies !ack_same(#[trigger] ks[q], acknowledgement) by {
                                if q != j {
                                    assert(texts_view(ack_peers(ks))[q] == ks[q].peer_node_uid@);
                                    crate::text::lemma_text_order_eq(ks[q].peer_node_uid@, ks[j as int].peer_node_uid@);
                                    if q < j {
                                        assert(text_lt(texts_view(ack_peers(ks))[q], texts_view(ack_peers(ks))[j as int]));
                                    } else {
                                        assert(text_lt(texts_view(ack_peers(ks))[j as int], texts_view(ack_peers(ks))[q]));
                                    }
                                }
                            }
                        }
                    }
                    if same {
                        return Ok(false);
                    }
                    return Err(KeyAuthorityError::AcknowledgementMutation);
                },
                None => {
                    proof {
                        if ack_replayed(*self, acknowledgement) {
                            let ks = local.acknowledgements@;
                            let j = choose|j: int| 0 <= j < ks.len() && ack_same(#[trigger] ks[j], acknowledgement);
                            assert(texts_view(ack_peers(ks))[j] == ks[j].peer_node_uid@);
                        }
                    }
                },
            }
        }
        if self.key_revision.0 == u64::MAX {
            return Err(KeyAuthorityError::RevisionOverflow);
        }
        self.apply_acknowledgement(pos, acknowledgement, now_unix_ms);
        Ok(true)
    }
}

} // verus!

verus! {

/// The epoch numbered `epoch` exists, is mutually attested, was prepared for
/// `topology_revision`, and is inside its lifetime at `now`.
pub closed spec fn activation_barrier_met(
    old: NodeKeyAuthority,
    epoch: u64,
    topology_revision: Revision,
    now: u64,
) -> bool {
    epoch_position(old, epoch) matches Some(i) && {
        let e = old.epochs@[i];
        &&& e.phase == KeyEpochPhase::MutuallyAttested
        &&& e.barrier.topology_revision == topology_revision
        &&& e.valid_from_unix_ms <= now < e.valid_until_unix_ms
    }
}

/// The requested drain deadline `now + drain_window` is representable.
pub closed spec fn drain_fits(old: NodeKeyAuthority, now: u64, drain_window: u64) -> bool {
    now + drain_window <= u64::MAX
}

/// The checks that `activate_epoch` makes before it changes anything.
pub closed spec fn activate_admissible(
    old: NodeKeyAuthority,
    epoch: u64,
    topology_revision: Revision,
    now: u64,
    drain_window: u64,
) -> bool {
    &&& authority_ok(old)
    &&& 0 < drain_window <= MAX_EPOCH_DRAIN_MS
    &&& activation_barrier_met(old, epoch, topology_revision, now)
    &&& drain_fits(old, now, drain_window)
    &&& old.key_revision.0 < u64::MAX
}

/// One epoch after activating `target`: the target becomes active and the
/// previously active epoch starts draining until `deadline`, clipped to that
/// key's own expiry.
pub closed spec fn activated_epoch(o: LocalKeyEpoch, target: u64, deadline: u64) -> LocalKeyEpoch {
    if o.epoch == target {
        LocalKeyEpoch { phase: KeyEpochPhase::Active, ..o }
    } else if o.phase == KeyEpochPhase::Active {
        LocalKeyEpoch {
            phase: KeyEpochPhase::Draining,
            drain_deadline_unix_ms: Some(
                if deadline < o.valid_until_unix_ms {
                    deadline
                } else {
                    o.valid_until_unix_ms
                },
            ),
            ..o
        }
    } else {
        o
    }
}

/// `new` is `old` with epoch `epoch` activated and the prior active epoch
/// draining until `deadline`.
pub closed spec fn activated_successor(
    old: NodeKeyAuthority,
    new: NodeKeyAuthority,
    epoch: u64,
    deadline: u64,
) -> bool {
    &&& new.schema_version == old.schema_version
    &&& new.cluster_id == old.cluster_id
    &&& new.node_name == old.node_name
    &&& new.node_uid == old.node_uid
    &&& new.key_revision.0 == old.key_revision.0 + 1
    &&& new.next_epoch == old.next_epoch
    &&& new.retired_through_epoch == old.retired_through_epoch
    &&& new.revoked_through_epoch == old.revoked_through_epoch
    &&& new.epochs@.len() == old.epochs@.len()
    &&& forall|j: int|
        0 <= j < old.epochs@.len() ==> #[trigger] new.epochs@[j] == activated_epoch(
            old.epochs@[j],
            epoch,
            deadline,
        )
}

#[verifier::spinoff_prover]
#[verifier::rlimit(40)]
proof fn lemma_activation_keeps_authority(
    old: NodeKeyAuthority,
    new: NodeKeyAuthority,
    epoch: u64,
    pos: int,
    deadline: u64,
)
    requires
        authority_ok(old),
        0 <= pos < old.epochs@.len(),
        old.epochs@[pos].epoch == epoch,
        old.epochs@[pos].phase == KeyEpochPhase::MutuallyAttested,
        activated_successor(old, new, epoch, deadline),
    ensures
        authority_ok(new),
{
    let es = new.epochs@;
    let os = old.epochs@;
    assert forall|i: int| 0 <= i < es.len() implies {
        &&& epoch_ok(new.node_uid@, #[trigger] es[i])
        &&& 0 < es[i].epoch < new.next_epoch
        &&& es[i].epoch > new.retired_through_epoch
        &&& es[i].epoch > new.revoked_through_epoch
    } by {
        assert(es[i] == activated_epoch(os[i], epoch, deadline));
        assert(epoch_ok(old.node_uid@, os[i]));
        if i != pos {
            assert(os[i].epoch != epoch) by {
                if i < pos {
                    assert(os[i].epoch < os[pos].epoch);
                } else {
                    assert(os[pos].epoch < os[i].epoch);
                }
            }
        }
    }
    assert forall|i: int, j: int| 0 <= i < j < es.len() implies {
        &&& (#[trigger] es[i]).epoch < (#[trigger] es[j]).epoch
        &&& es[i].public_key.0@ != es[j].public_key.0@
        &&& es[i].phase != es[j].phase
        &&& !(pending_phase(es[i].phase) && pending_phase(es[j].phase))
    } by {
        assert(os[i].epoch < os[j].epoch);
        assert(es[i] == activated_epoch(os[i], epoch, deadline));
        assert(es[j] == activated_epoch(os[j], epoch, deadline));
    }
    assert(es[pos] == activated_epoch(os[pos], epoch, deadline));
    assert(es[pos].phase == KeyEpochPhase::Active);
}

impl NodeKeyAuthority {
    /// Activates a mutually attested epoch and places the prior active epoch
    /// in drain until `now_unix_ms + drain_window_ms`, or until that key
    /// expires if it expires first.
    #[verifier::spinoff_prover]
    #[verifier::rlimit(50)]
    pub fn activate_epoch(
        &mut self,
        epoch: u64,
        current_topology_revision: Revision,
        now_unix_ms: u64,
        drain_window_ms: u64,
    ) -> (r: Result<(), KeyAuthorityError>)
        ensures
            r is Ok <==> activate_admissible(
                *old(self),
                epoch,
                current_topology_revision,
                now_unix_ms,
                drain_window_ms,
            ),
            r is Ok ==> activated_successor(
                *old(self),
                *final(self),
                epoch,
                (now_unix_ms + drain_window_ms) as u64,
            ) && authority_ok(*final(self)),
            r is Err ==> *final(self) == *old(self),
            authority_ok(*old(self)) && !(0 < drain_window_ms <= MAX_EPOCH_DRAIN_MS) ==> (r is Err
                && r->Err_0 is InvalidDrainWindow),
            authority_ok(*old(self)) && 0 < drain_window_ms <= MAX_EPOCH_DRAIN_MS && epoch_position(
                *old(self),
                epoch,
            ) is None ==> r == Err::<(), KeyAuthorityError>(KeyAuthorityError::UnknownEpoch(epoch)),
            authority_ok(*old(self)) && 0 < drain_window_ms <= MAX_EPOCH_DRAIN_MS && epoch_position(
                *old(self),
                epoch,
            ) is Some && !activation_barrier_met(
                *old(self),
                epoch,
                current_topology_revision,
                now_unix_ms,
            ) ==> (r is Err && r->Err_0 is ActivationBarrierNotSatisfied),
            authority_ok(*old(self)) && 0 < drain_window_ms <= MAX_EPOCH_DRAIN_MS
                && activation_barrier_met(*old(self), epoch, current_topology_revision, now_unix_ms)
                && !drain_fits(*old(self), now_unix_ms, drain_window_ms) ==> (r is Err
                && r->Err_0 is InvalidDrainWindow),
    {
        self.validate()?;
        if drain_window_ms == 0 || drain_window_ms > MAX_EPOCH_DRAIN_MS {
            return Err(KeyAuthorityError::InvalidDrainWindow);
        }
        let pos = match self.find_epoch(epoch) {
            Some(p) => p,
            None => {
                return Err(KeyAuthorityError::UnknownEpoch(epoch));
            },
        };
        {
            let e = &self.epochs[pos];
            if e.phase != KeyEpochPhase::MutuallyAttested || e.barrier.topology_revision.0
                != current_topology_revision.0 || now_unix_ms < e.valid_from_unix_ms || now_unix_ms
                >= e.valid_until_unix_ms || e.readiness.is_none() {
                return Err(KeyAuthorityError::ActivationBarrierNotSatisfied);
            }
        }
        if now_unix_ms > u64::MAX - drain_window_ms {
            return Err(KeyAuthorityError::InvalidDrainWindow);
        }
        let deadline = now_unix_ms + drain_window_ms;
        let n = self.epochs.len();
        if self.key_revision.0 == u64::MAX {
            return Err(KeyAuthorityError::RevisionOverflow);
        }
        let ghost old_self = *self;
        let mut pending: Vec<LocalKeyEpoch> = Vec::new();
        std::mem::swap(&mut pending, &mut self.epochs);
        let mut done: Vec<LocalKeyEpoch> = Vec::new();
        let mut k: usize = 0;
        while k < n
            invariant
                n == old_self.epochs@.len(),
                k <= n,
                pending@ == old_self.epochs@.subrange(k as int, n as int),
                done@.len() == k,
                forall|j: int|
                    0 <= j < k ==> #[trigger] done@[j] == activated_epoch(
                        old_self.epochs@[j],
                        epoch,
                        deadline,
                    ),
            decreases n - k,
        {
            let mut e = pending.remove(0);
            assert(e == old_self.epochs@[k as int]);
            if e.epoch == epoch {
                e.phase = KeyEpochPhase::Active;
            } else if e.phase == KeyEpochPhase::Active {
                e.phase = KeyEpochPhase::Draining;
                e.drain_deadline_unix_ms = Some(
                    if deadline < e.valid_until_unix_ms {
                        deadline
                    } else {
                        e.valid_until_unix_ms
                    },
                );
            }
            done.push(e);
            assert(pending@ =~= old_self.epochs@.subrange(k + 1, n as int));
            k = k + 1;
        }
        self.epochs = done;
        self.key_revision = Revision(self.key_revision.0 + 1);
        proof {
            lemma_activation_keeps_authority(old_self, *self, epoch, pos as int, deadline);
        }
        Ok(())
    }
}

} // verus!

verus! {

/// A digest-bound observation of the flow and route state still using one
/// draining epoch.
#[derive(Clone, Debug)]
pub struct EpochDrainProof {
    pub node_uid: String,
    pub epoch: u64,
    pub observation_revision: Revision,
    pub observed_at_unix_ms: u64,
    pub established_flow_count: u64,
    pub owned_route_count: u32,
    pub proof_digest: EpochDrainProofDigest,
}

pub open spec fn drain_proof_material(p: EpochDrainProof) -> Seq<u8> {
    text_bytes(p.node_uid@) + u64_bytes(p.epoch) + u64_bytes(p.observation_revision.0) + u64_bytes(
        p.observed_at_unix_ms,
    ) + u64_bytes(p.established_flow_count) + u32_bytes(p.owned_route_count)
}

/// The digest committing to every drain-proof field except the digest itself.
pub open spec fn drain_proof_digest_spec(p: EpochDrainProof) -> Seq<u8> {
    sha256_spec(text_bytes(DRAIN_PROOF_DIGEST_DOMAIN@) + drain_proof_material(p))
}

pub open spec fn drain_proof_shape_ok(
    node_uid: Seq<char>,
    epoch: u64,
    observation_revision: Revision,
    observed_at: u64,
) -> bool {
    key_text(node_uid) && epoch != 0 && observation_revision.0 != 0 && observed_at != 0
}

pub open spec fn drain_proof_ok(p: EpochDrainProof) -> bool {
    &&& drain_proof_shape_ok(p.node_uid@, p.epoch, p.observation_revision, p.observed_at_unix_ms)
    &&& p.proof_digest.0@ == drain_proof_digest_spec(p)
}

impl EpochDrainProof {
    pub fn calculate_digest(&self) -> (d: EpochDrainProofDigest)
        ensures
            d.0@ == drain_proof_digest_spec(*self),
    {
        let mut m: Vec<u8> = Vec::new();
        push_text(&mut m, DRAIN_PROOF_DIGEST_DOMAIN);
        push_text(&mut m, self.node_uid.as_str());
        push_u64(&mut m, self.epoch);
        push_u64(&mut m, self.observation_revision.0);
        push_u64(&mut m, self.observed_at_unix_ms);
        push_u64(&mut m, self.established_flow_count);
        push_u32(&mut m, self.owned_route_count);
        assert(m@ =~= text_bytes(DRAIN_PROOF_DIGEST_DOMAIN@) + drain_proof_material(*self));
        EpochDrainProofDigest(sha256(&m))
    }

    /// Issues a digest-bound observation of remaining flow and route state.
    pub fn issue(
        node_uid: String,
        epoch: u64,
        observation_revision: Revision,
        observed_at_unix_ms: u64,
        established_flow_count: u64,
        owned_route_count: u32,
    ) -> (r: Result<Self, KeyAuthorityError>)
        ensures
            r is Ok <==> drain_proof_shape_ok(
                node_uid@,
                epoch,
                observation_revision,
                observed_at_unix_ms,
            ),
            r matches Ok(p) ==> {
                &&& drain_proof_ok(p)
                &&& p.node_uid == node_uid
                &&& p.epoch == epoch
                &&& p.observation_revision == observation_revision
                &&& p.observed_at_unix_ms == observed_at_unix_ms
                &&& p.established_flow_count == established_flow_count
                &&& p.owned_route_count == owned_route_count
            },
            r is Err ==> r->Err_0 is InvalidDrainProof,
    {
        if !validate_text(node_uid.as_str()) || epoch == 0 || observation_revision.0 == 0
            || observed_at_unix_ms == 0 {
            return Err(KeyAuthorityError::InvalidDrainProof);
        }
        let mut proof = EpochDrainProof {
            node_uid,
            epoch,
            observation_revision,
            observed_at_unix_ms,
            established_flow_count,
            owned_route_count,
            proof_digest: EpochDrainProofDigest([0u8; 32]),
        };
        let d = proof.calculate_digest();
        proof.proof_digest = d;
        Ok(proof)
    }

    /// Independently verifies the drain-proof digest and shape.
    pub fn verify(&self) -> (r: Result<(), KeyAuthorityError>)
        ensures
            r is Ok <==> drain_proof_ok(*self),
            r is Err ==> r->Err_0 is InvalidDrainProof,
    {
        if !validate_text(self.node_uid.as_str()) || self.epoch == 0
            || self.observation_revision.0 == 0 || self.observed_at_unix_ms == 0 {
            return Err(KeyAuthorityError::InvalidDrainProof);
        }
        let expected = self.calculate_digest();
        if !bytes32_eq(&self.proof_digest.0, &expected.0) {
            return Err(KeyAuthorityError::InvalidDrainProof);
        }
        Ok(())
    }
}

#[derive(Clone, Copy, Debug, PartialEq, Eq, Structural)]
pub enum EpochRevocationReason {
    SuspectedCompromise,
    NodeReplacement,
    OperatorEmergency,
    /// A key expired before it ever gained mutually attested packet authority.
    ExpiredBeforeActivation,
    /// A peer advanced the public fleet frontier before this local key became
    /// active, so the unpublished transition is causally obsolete.
    FleetEpochSuperseded,
}

pub open spec fn reason_rank(r: EpochRevocationReason) -> u8 {
    match r {
        EpochRevocationReason::SuspectedCompromise => 0,
        EpochRevocationReason::NodeReplacement => 1,
        EpochRevocationReason::OperatorEmergency => 2,
        EpochRevocationReason::ExpiredBeforeActivation => 3,
        EpochRevocationReason::FleetEpochSuperseded => 4,
    }
}

pub fn reason_code(r: EpochRevocationReason) -> (c: u8)
    ensures
        c == reason_rank(r),
{
    match r {
        EpochRevocationReason::SuspectedCompromise => 0,
        EpochRevocationReason::NodeReplacement => 1,
        EpochRevocationReason::OperatorEmergency => 2,
        EpochRevocationReason::ExpiredBeforeActivation => 3,
        EpochRevocationReason::FleetEpochSuperseded => 4,
    }
}

/// Public receipt of an emergency revocation.
#[derive(Clone, Debug)]
pub struct EpochRevocationReceipt {
    pub node_uid: String,
    pub revoked_through_epoch: u64,
    pub reason: EpochRevocationReason,
    pub revoked_at_unix_ms: u64,
    pub key_revision: Revision,
    pub receipt_digest: EpochRevocationDigest,
}

pub open spec fn receipt_material(r: EpochRevocationReceipt) -> Seq<u8> {
    text_bytes(r.node_uid@) + u64_bytes(r.revoked_through_epoch) + u8_bytes(reason_rank(r.reason))
        + u64_bytes(r.revoked_at_unix_ms) + u64_bytes(r.key_revision.0)
}

/// The digest committing to every receipt field except the digest itself.
pub open spec fn receipt_digest_spec(r: EpochRevocationReceipt) -> Seq<u8> {
    sha256_spec(text_bytes(REVOCATION_DIGEST_DOMAIN@) + receipt_material(r))
}

pub open spec fn receipt_ok(r: EpochRevocationReceipt) -> bool {
    &&& key_text(r.node_uid@)
    &&& r.revoked_through_epoch != 0
    &&& r.revoked_at_unix_ms != 0
    &&& r.key_revision.0 != 0
    &&& r.receipt_digest.0@ == receipt_digest_spec(r)
}

impl EpochRevocationReceipt {
    pub fn calculate_digest(&self) -> (d: EpochRevocationDigest)
        ensures
            d.0@ == receipt_digest_spec(*self),
    {
        let mut m: Vec<u8> = Vec::new();
        push_text(&mut m, REVOCATION_DIGEST_DOMAIN);
        push_text(&mut m, self.node_uid.as_str());
        push_u64(&mut m, self.revoked_through_epoch);
        push_u8(&mut m, reason_code(self.reason));
        push_u64(&mut m, self.revoked_at_unix_ms);
        push_u64(&mut m, self.key_revision.0);
        assert(m@ =~= text_bytes(REVOCATION_DIGEST_DOMAIN@) + receipt_material(*self));
        EpochRevocationDigest(sha256(&m))
    }

    fn issue(
        node_uid: String,
        revoked_through_epoch: u64,
        reason: EpochRevocationReason,
        revoked_at_unix_ms: u64,
        key_revision: Revision,
    ) -> (r: Self)
        ensures
            r.node_uid == node_uid,
            r.revoked_through_epoch == revoked_through_epoch,
            r.reason == reason,
            r.revoked_at_unix_ms == revoked_at_unix_ms,
            r.key_revision == key_revision,
            r.receipt_digest.0@ == receipt_digest_spec(r),
    {
        let mut receipt = EpochRevocationReceipt {
            node_uid,
            revoked_through_epoch,
            reason,
            revoked_at_unix_ms,
            key_revision,
            receipt_digest: EpochRevocationDigest([0u8; 32]),
        };
        let d = receipt.calculate_digest();
        receipt.receipt_digest = d;
        receipt
    }

    /// Verifies the public emergency-revocation receipt.
    pub fn verify(&self) -> (r: Result<(), KeyAuthorityError>)
        ensures
            r is Ok <==> receipt_ok(*self),
            r is Err ==> r->Err_0 is InvalidRevocationReceipt,
    {
        if !validate_text(self.node_uid.as_str()) || self.revoked_through_epoch == 0
            || self.revoked_at_unix_ms == 0 || self.key_revision.0 == 0 {
            return Err(KeyAuthorityError::InvalidRevocationReceipt);
        }
        let expected = self.calculate_digest();
        if !bytes32_eq(&self.receipt_digest.0, &expected.0) {
            return Err(KeyAuthorityError::InvalidRevocationReceipt);
        }
        Ok(())
    }
}

} // verus!

verus! {

/// The drain proof was observed on this Node, no later than `now`, and shows
/// no remaining flow or route.
pub closed spec fn drain_evidence_fits(old: NodeKeyAuthority, p: EpochDrainProof, now: u64) -> bool {
    &&& p.node_uid@ == old.node_uid@
    &&& p.observed_at_unix_ms <= now
    &&& p.established_flow_count == 0
    &&& p.owned_route_count == 0
}

/// The epoch numbered `epoch` is held and draining.
pub closed spec fn draining_epoch(old: NodeKeyAuthority, epoch: u64) -> bool {
    epoch_position(old, epoch) matches Some(i) && old.epochs@[i].phase == KeyEpochPhase::Draining
}

/// Every other held epoch is newer than `epoch`, so the retired-through
/// watermark can move up to it.
pub closed spec fn others_newer(old: NodeKeyAuthority, epoch: u64) -> bool {
    forall|j: int|
        0 <= j < old.epochs@.len() && (#[trigger] old.epochs@[j]).epoch != epoch
            ==> old.epochs@[j].epoch > epoch
}

pub closed spec fn retire_admissible(old: NodeKeyAuthority, p: EpochDrainProof, now: u64) -> bool {
    &&& authority_ok(old)
    &&& drain_proof_ok(p)
    &&& drain_evidence_fits(old, p, now)
    &&& draining_epoch(old, p.epoch)
    &&& others_newer(old, p.epoch)
    &&& old.key_revision.0 < u64::MAX
}

/// `new` is `old` without the epoch numbered `epoch`, with the retired-through
/// watermark raised to it.
pub closed spec fn retired_successor(old: NodeKeyAuthority, new: NodeKeyAuthority, epoch: u64) -> bool {
    epoch_position(old, epoch) matches Some(i) && {
        &&& new.schema_version == old.schema_version
        &&& new.cluster_id == old.cluster_id
        &&& new.node_name == old.node_name
        &&& new.node_uid == old.node_uid
        &&& new.key_revision.0 == old.key_revision.0 + 1
        &&& new.next_epoch == old.next_epoch
        &&& new.retired_through_epoch == (if old.retired_through_epoch < epoch {
            epoch
        } else {
            old.retired_through_epoch
        })
        &&& new.revoked_through_epoch == old.revoked_through_epoch
        &&& new.epochs@ == old.epochs@.remove(i)
    }
}

/// Revoking through `epoch` never leaves a draining epoch without its active
/// successor.
pub closed spec fn revocation_keeps_active(old: NodeKeyAuthority, epoch: u64) -> bool {
    (exists|j: int|
        0 <= j < old.epochs@.len() && (#[trigger] old.epochs@[j]).epoch > epoch
            && old.epochs@[j].phase == KeyEpochPhase::Draining) ==> (exists|j: int|
        0 <= j < old.epochs@.len() && (#[trigger] old.epochs@[j]).epoch > epoch
            && old.epochs@[j].phase == KeyEpochPhase::Active)
}

pub closed spec fn revoke_admissible(old: NodeKeyAuthority, epoch: u64, now: u64) -> bool {
    &&& authority_ok(old)
    &&& 0 < epoch < old.next_epoch
    &&& now != 0
    &&& revocation_keeps_active(old, epoch)
    &&& old.key_revision.0 < u64::MAX
}

/// `new` keeps exactly the epochs of `old` numbered above `epoch`, in order,
/// with the revoked-through watermark raised to `epoch`.
pub closed spec fn revoked_successor(old: NodeKeyAuthority, new: NodeKeyAuthority, epoch: u64) -> bool {
    &&& new.schema_version == old.schema_version
    &&& new.cluster_id == old.cluster_id
    &&& new.node_name == old.node_name
    &&& new.node_uid == old.node_uid
    &&& new.key_revision.0 == old.key_revision.0 + 1
    &&& new.next_epoch == old.next_epoch
    &&& new.retired_through_epoch == old.retired_through_epoch
    &&& new.revoked_through_epoch == (if old.revoked_through_epoch < epoch {
        epoch
    } else {
        old.revoked_through_epoch
    })
    &&& exists|c: int|
        0 <= c <= old.epochs@.len() && new.epochs@ == old.epochs@.skip(c) && (forall|j: int|
            0 <= j < c ==> (#[trigger] old.epochs@[j]).epoch <= epoch) && (forall|j: int|
            c <= j < old.epochs@.len() ==> (#[trigger] old.epochs@[j]).epoch > epoch)
}


proof fn lemma_revocation_keeps_authority(old: NodeKeyAuthority, new: NodeKeyAuthority, epoch: u64, c: int)
    requires
        authority_ok(old),
        0 <= c <= old.epochs@.len(),
        0 < epoch < old.next_epoch,
        new.epochs@ == old.epochs@.skip(c),
        forall|j: int| 0 <= j < c ==> (#[trigger] old.epochs@[j]).epoch <= epoch,
        forall|j: int| c <= j < old.epochs@.len() ==> (#[trigger] old.epochs@[j]).epoch > epoch,
        revocation_keeps_active(old, epoch),
        new.schema_version == old.schema_version,
        new.cluster_id == old.cluster_id,
        new.node_name == old.node_name,
        new.node_uid == old.node_uid,
        new.next_epoch == old.next_epoch,
        new.retired_through_epoch == old.retired_through_epoch,
        new.revoked_through_epoch == (if old.revoked_through_epoch < epoch {
            epoch
        } else {
            old.revoked_through_epoch
        }),
    ensures
        authority_ok(new),
{
    let es = new.epochs@;
    let os = old.epochs@;
    let n = os.len();
    assert forall|i: int| 0 <= i < es.len() implies {
        &&& epoch_ok(new.node_uid@, #[trigger] es[i])
        &&& 0 < es[i].epoch < new.next_epoch
        &&& es[i].epoch > new.retired_through_epoch
        &&& es[i].epoch > new.revoked_through_epoch
    } by {
        assert(es[i] == os[i + c]);
    }
    assert forall|i: int, j: int| 0 <= i < j < es.len() implies {
        &&& (#[trigger] es[i]).epoch < (#[trigger] es[j]).epoch
        &&& es[i].public_key.0@ != es[j].public_key.0@
        &&& es[i].phase != es[j].phase
        &&& !(pending_phase(es[i].phase) && pending_phase(es[j].phase))
    } by {
        assert(es[i] == os[i + c]);
        assert(es[j] == os[j + c]);
    }
    if exists|i: int| 0 <= i < es.len() && #[trigger] es[i].phase == KeyEpochPhase::Draining {
        let i = choose|i: int| 0 <= i < es.len() && #[trigger] es[i].phase == KeyEpochPhase::Draining;
        assert(es[i] == os[i + c]);
        assert(os[i + c].epoch > epoch);
        let q = choose|q: int|
            0 <= q < n && (#[trigger] os[q]).epoch > epoch && os[q].phase == KeyEpochPhase::Active;
        assert(q >= c);
        assert(es[q - c] == os[q]);
    }
}

impl NodeKeyAuthority {
    pub closed spec fn holds_epoch(&self, epoch: u64) -> bool {
        exists|i: int| 0 <= i < self.epochs@.len() && (#[trigger] self.epochs@[i]).epoch == epoch
    }

    /// Retires a draining epoch, and with it its secret, after positive proof
    /// that no flow or route still uses it.
    pub fn retire_drained_epoch(&mut self, proof: &EpochDrainProof, now_unix_ms: u64) -> (r: Result<
        (),
        KeyAuthorityError,
    >)
        ensures
            r is Ok <==> retire_admissible(*old(self), *proof, now_unix_ms),
            r is Ok ==> retired_successor(*old(self), *final(self), proof.epoch) && authority_ok(
                *final(self),
            ) && !final(self).holds_epoch(proof.epoch),
            r is Err ==> *final(self) == *old(self),
            authority_ok(*old(self)) && !(drain_proof_ok(*proof) && drain_evidence_fits(
                *old(self),
                *proof,
                now_unix_ms,
            )) ==> (r is Err && r->Err_0 is InvalidDrainProof),
            authority_ok(*old(self)) && drain_proof_ok(*proof) && drain_evidence_fits(
                *old(self),
                *proof,
                now_unix_ms,
            ) && epoch_position(*old(self), proof.epoch) is None ==> r == Err::<
                (),
                KeyAuthorityError,
            >(KeyAuthorityError::UnknownEpoch(proof.epoch)),
            authority_ok(*old(self)) && drain_proof_ok(*proof) && drain_evidence_fits(
                *old(self),
                *proof,
                now_unix_ms,
            ) && epoch_position(*old(self), proof.epoch) is Some && !draining_epoch(
                *old(self),
                proof.epoch,
            ) ==> (r is Err && r->Err_0 is EpochCapacityOrTransition),
    {
        self.validate()?;
        proof.verify()?;
        if !text_eq(proof.node_uid.as_str(), self.node_uid.as_str()) || proof.observed_at_unix_ms
            > now_unix_ms || proof.established_flow_count != 0 || proof.owned_route_count != 0 {
            return Err(KeyAuthorityError::InvalidDrainProof);
        }
        let pos = match self.find_epoch(proof.epoch) {
            Some(p) => p,
            None => {
                return Err(KeyAuthorityError::UnknownEpoch(proof.epoch));
            },
        };
        if self.epochs[pos].phase != KeyEpochPhase::Draining {
            return Err(KeyAuthorityError::EpochCapacityOrTransition);
        }
        let n = self.epochs.len();
        let mut has_active = false;
        let mut newer = true;
        let mut i: usize = 0;
        while i < n
            invariant
                n == self.epochs@.len(),
                i <= n,
                has_active == (exists|j: int|
                    0 <= j < i && #[trigger] self.epochs@[j].phase == KeyEpochPhase::Active),
                newer == (forall|j: int|
                    0 <= j < i && (#[trigger] self.epochs@[j]).epoch != proof.epoch
                        ==> self.epochs@[j].epoch > proof.epoch),
            decreases n - i,
        {
            if self.epochs[i].phase == KeyEpochPhase::Active {
                has_active = true;
            }
            if self.epochs[i].epoch != proof.epoch && self.epochs[i].epoch <= proof.epoch {
                newer = false;
            }
            i = i + 1;
        }
        if !has_active {
            proof {
                assert(self.epochs@[pos as int].phase == KeyEpochPhase::Draining);
            }
            return Err(KeyAuthorityError::EpochCapacityOrTransition);
        }
        if !newer {
            return Err(KeyAuthorityError::InvalidDurableState);
        }
        if self.key_revision.0 == u64::MAX {
            return Err(KeyAuthorityError::RevisionOverflow);
        }
        let ghost old_self = *self;
        let _retired = self.epochs.remove(pos);
        if self.retired_through_epoch < proof.epoch {
            self.retired_through_epoch = proof.epoch;
        }
        self.key_revision = Revision(self.key_revision.0 + 1);
        proof {
            let es = self.epochs@;
            let os = old_self.epochs@;
            let p = pos as int;
            assert(es == os.remove(p));
            assert forall|i: int| 0 <= i < es.len() implies {
                &&& epoch_ok(self.node_uid@, #[trigger] es[i])
                &&& 0 < es[i].epoch < self.next_epoch
                &&& es[i].epoch > self.retired_through_epoch
                &&& es[i].epoch > self.revoked_through_epoch
            } by {
                if i < p {
                    assert(es[i] == os[i]);
                    assert(os[i].epoch < os[p].epoch);
                } else {
                    assert(es[i] == os[i + 1]);
                    assert(os[p].epoch < os[i + 1].epoch);
                }
            }
            assert forall|i: int, j: int| 0 <= i < j < es.len() implies {
                &&& (#[trigger] es[i]).epoch < (#[trigger] es[j]).epoch
                &&& es[i].public_key.0@ != es[j].public_key.0@
                &&& es[i].phase != es[j].phase
                &&& !(pending_phase(es[i].phase) && pending_phase(es[j].phase))
            } by {
                let oi = if i < p { i } else { i + 1 };
                let oj = if j < p { j } else { j + 1 };
                assert(es[i] == os[oi]);
                assert(es[j] == os[oj]);
                assert(os[oi].epoch < os[oj].epoch);
            }
            if exists|i: int| 0 <= i < es.len() && #[trigger] es[i].phase == KeyEpochPhase::Draining {
                let i = choose|i: int| 0 <= i < es.len() && #[trigger] es[i].phase == KeyEpochPhase::Draining;
                let oi = if i < p { i } else { i + 1 };
                assert(es[i] == os[oi]);
                assert(oi != p);
                if oi < p {
                    assert(os[oi].phase != os[p].phase);
                } else {
                    assert(os[p].phase != os[oi].phase);
                }
            }
            if self.holds_epoch(proof.epoch) {
                let i = choose|i: int| 0 <= i < es.len() && (#[trigger] es[i]).epoch == proof.epoch;
                if i < p {
                    assert(es[i] == os[i]);
                    assert(os[i].epoch < os[p].epoch);
                } else {
                    assert(es[i] == os[i + 1]);
                    assert(os[p].epoch < os[i + 1].epoch);
                }
            }
        }
        Ok(())
    }

    /// Emergency-fences all key material through an issued epoch: every held
    /// epoch numbered up to `epoch` is dropped with its secret.
    #[verifier::rlimit(50)]
    #[verifier::spinoff_prover]
    pub fn revoke_through(
        &mut self,
        epoch: u64,
        reason: EpochRevocationReason,
        now_unix_ms: u64,
    ) -> (r: Result<EpochRevocationReceipt, KeyAuthorityError>)
        ensures
            r is Ok <==> revoke_admissible(*old(self), epoch, now_unix_ms),
            r matches Ok(receipt) ==> {
                &&& revoked_successor(*old(self), *final(self), epoch)
                &&& authority_ok(*final(self))
                &&& receipt_ok(receipt)
                &&& receipt.node_uid@ == old(self).node_uid_spec()
                &&& receipt.revoked_through_epoch == epoch
                &&& receipt.reason == reason
                &&& receipt.revoked_at_unix_ms == now_unix_ms
                &&& receipt.key_revision.0 == final(self).key_revision_spec()
            },
            r is Err ==> *final(self) == *old(self),
            authority_ok(*old(self)) && !(0 < epoch < old(self).next_epoch_spec() && now_unix_ms
                != 0) ==> r == Err::<EpochRevocationReceipt, KeyAuthorityError>(
                KeyAuthorityError::UnknownEpoch(epoch),
            ),
    {
        self.validate()?;
        if epoch == 0 || epoch >= self.next_epoch || now_unix_ms == 0 {
            return Err(KeyAuthorityError::UnknownEpoch(epoch));
        }
        let n = self.epochs.len();
        let mut c: usize = 0;
        while c < n && self.epochs[c].epoch <= epoch
            invariant
                n == self.epochs@.len(),
                c <= n,
                forall|j: int| 0 <= j < c ==> (#[trigger] self.epochs@[j]).epoch <= epoch,
            decreases n - c,
        {
            c = c + 1;
        }
        proof {
            assert forall|j: int| c <= j < n implies (#[trigger] self.epochs@[j]).epoch > epoch by {
                if j > c {
                    assert(self.epochs@[c as int].epoch < self.epochs@[j].epoch);
                }
            }
        }
        let mut kept_draining = false;
        let mut kept_active = false;
        let mut i: usize = c;
        while i < n
            invariant
                n == self.epochs@.len(),
                c <= i <= n,
                forall|j: int| c <= j < n ==> (#[trigger] self.epochs@[j]).epoch > epoch,
                forall|j: int| 0 <= j < c ==> (#[trigger] self.epochs@[j]).epoch <= epoch,
                kept_draining == (exists|j: int|
                    c <= j < i && #[trigger] self.epochs@[j].phase == KeyEpochPhase::Draining),
                kept_active == (exists|j: int|
                    c <= j < i && #[trigger] self.epochs@[j].phase == KeyEpochPhase::Active),
            decreases n - i,
        {
            if self.epochs[i].phase == KeyEpochPhase::Draining {
                kept_draining = true;
            }
            if self.epochs[i].phase == KeyEpochPhase::Active {
                kept_active = true;
            }
            i = i + 1;
        }
        if kept_draining && !kept_active {
            proof {
                let j = choose|j: int|
                    c <= j < n && #[trigger] self.epochs@[j].phase == KeyEpochPhase::Draining;
                assert(self.epochs@[j].epoch > epoch);
                if exists|q: int|
                    0 <= q < n && (#[trigger] self.epochs@[q]).epoch > epoch
                        && self.epochs@[q].phase == KeyEpochPhase::Active {
                    let q = choose|q: int|
                        0 <= q < n && (#[trigger] self.epochs@[q]).epoch > epoch
                            && self.epochs@[q].phase == KeyEpochPhase::Active;
                    assert(q >= c);
                }
            }
            return Err(KeyAuthorityError::InvalidDurableState);
        }
        proof {
            if exists|j: int|
                0 <= j < n && (#[trigger] self.epochs@[j]).epoch > epoch
                    && self.epochs@[j].phase == KeyEpochPhase::Draining {
                let j = choose|j: int|
                    0 <= j < n && (#[trigger] self.epochs@[j]).epoch > epoch
                        && self.epochs@[j].phase == KeyEpochPhase::Draining;
                assert(j >= c);
                let q = choose|q: int|
                    c <= q < n && #[trigger] self.epochs@[q].phase == KeyEpochPhase::Active;
                assert(self.epochs@[q].epoch > epoch);
            }
        }
        if self.key_revision.0 == u64::MAX {
            return Err(KeyAuthorityError::RevisionOverflow);
        }
        let ghost old_self = *self;
        let mut d: usize = 0;
        while d < c
            invariant
                d <= c <= n,
                n == old_self.epochs@.len(),
                self.epochs@ == old_self.epochs@.skip(d as int),
                self.schema_version == old_self.schema_version,
                self.cluster_id == old_self.cluster_id,
                self.node_name == old_self.node_name,
                self.node_uid == old_self.node_uid,
                self.key_revision == old_self.key_revision,
                self.next_epoch == old_self.next_epoch,
                self.retired_through_epoch == old_self.retired_through_epoch,
                self.revoked_through_epoch == old_self.revoked_through_epoch,
            decreases c - d,
        {
            let _revoked = self.epochs.remove(0);
            assert(self.epochs@ =~= old_self.epochs@.skip(d + 1));
            d = d + 1;
        }
        if self.revoked_through_epoch < epoch {
            self.revoked_through_epoch = epoch;
        }
        self.key_revision = Revision(self.key_revision.0 + 1);
        proof {
            lemma_revocation_keeps_authority(old_self, *self, epoch, c as int);
        }
        let receipt = EpochRevocationReceipt::issue(
            self.node_uid.clone(),
            epoch,
            reason,
            now_unix_ms,
            self.key_revision,
        );
        Ok(receipt)
    }

    /// The draining epoch whose drain deadline has passed at `now_unix_ms`, if
    /// any. This is only a lifecycle query: the caller must still prove that
    /// packet, route, and kernel ownership are empty before retiring it.
    pub fn drained_epoch_ready_for_retirement(&self, now_unix_ms: u64) -> (r: Result<
        Option<u64>,
        KeyAuthorityError,
    >)
        ensures
            r is Ok <==> authority_ok(*self) && now_unix_ms != 0,
            authority_ok(*self) && now_unix_ms == 0 ==> (r is Err && r->Err_0 is InvalidDrainProof),
            r matches Ok(Some(e)) ==> self.drain_ready_epoch(now_unix_ms, e),
            r == Ok::<Option<u64>, KeyAuthorityError>(None) ==> self.no_drain_ready(now_unix_ms),
    {
        self.validate()?;
        if now_unix_ms == 0 {
            return Err(KeyAuthorityError::InvalidDrainProof);
        }
        Ok(self.find_drain_ready(now_unix_ms))
    }

    /// Some held epoch numbered `e` is draining past its deadline at `now`.
    pub closed spec fn drain_ready_epoch(&self, now: u64, e: u64) -> bool {
        exists|j: int|
            0 <= j < self.epochs@.len() && (#[trigger] self.epochs@[j]).epoch == e
                && self.epochs@[j].drain_ready_at(now)
    }

    /// No held epoch is draining past its deadline at `now`.
    pub closed spec fn no_drain_ready(&self, now: u64) -> bool {
        forall|j: int| 0 <= j < self.epochs@.len() ==> !(#[trigger] self.epochs@[j]).drain_ready_at(now)
    }

    fn find_drain_ready(&self, now_unix_ms: u64) -> (found: Option<u64>)
        ensures
            found matches Some(e) ==> self.drain_ready_epoch(now_unix_ms, e),
            found is None ==> self.no_drain_ready(now_unix_ms),
    {
        let mut found: Option<u64> = None;
        let mut i: usize = 0;
        while i < self.epochs.len() && found.is_none()
            invariant
                i <= self.epochs@.len(),
                found matches Some(e) ==> exists|j: int|
                    0 <= j < i && (#[trigger] self.epochs@[j]).epoch == e
                        && self.epochs@[j].drain_ready_at(now_unix_ms),
                found is None ==> forall|j: int|
                    0 <= j < i ==> !(#[trigger] self.epochs@[j]).drain_ready_at(now_unix_ms),
            decreases self.epochs@.len() - i,
        {
            let e = &self.epochs[i];
            if e.phase == KeyEpochPhase::Draining {
                match e.drain_deadline_unix_ms {
                    Some(deadline) => {
                        if now_unix_ms >= deadline {
                            found = Some(e.epoch);
                        }
                    },
                    None => {},
                }
            }
            i = i + 1;
        }
        found
    }
}

impl LocalKeyEpoch {
    /// Draining, with a drain deadline no later than `now`.
    pub closed spec fn drain_ready_at(&self, now: u64) -> bool {
        self.phase == KeyEpochPhase::Draining && (self.drain_deadline_unix_ms matches Some(d)
            && now >= d)
    }
}

} // verus!

verus! {

/// The public half of one local epoch.
#[derive(Clone, Copy, Debug)]
pub struct KeyEpochPublication {
    pub epoch: u64,
    pub public_key: WireGuardPublicKey,
    pub phase: KeyEpochPhase,
    pub valid_from_unix_ms: u64,
    pub valid_until_unix_ms: u64,
    pub topology_revision: Revision,
    pub barrier_digest: CausalEpochBarrierDigest,
    pub required_peer_count: u32,
    pub acknowledged_peer_count: u32,
    pub readiness_digest: Option<EpochReadinessDigest>,
    pub drain_deadline_unix_ms: Option<u64>,
}

/// The public-only, digest-bound record of a Node's key epochs.
#[derive(Clone, Debug)]
pub struct NodeKeyPublication {
    pub schema_version: u16,
    pub cluster_id: String,
    pub node_name: String,
    pub node_uid: String,
    pub key_revision: Revision,
    pub next_epoch: u64,
    pub retired_through_epoch: u64,
    pub revoked_through_epoch: u64,
    pub epochs: Vec<KeyEpochPublication>,
    pub publication_digest: NodeKeyPublicationDigest,
}

pub open spec fn opt_digest_view(o: Option<EpochReadinessDigest>) -> Option<Seq<u8>> {
    match o {
        Some(d) => Some(d.0@),
        None => None,
    }
}

pub open spec fn epoch_publication_bytes(e: KeyEpochPublication) -> Seq<u8> {
    u64_bytes(e.epoch) + raw_bytes(e.public_key.0@) + u8_bytes(phase_rank(e.phase) as u8)
        + u64_bytes(e.valid_from_unix_ms) + u64_bytes(e.valid_until_unix_ms) + u64_bytes(
        e.topology_revision.0,
    ) + raw_bytes(e.barrier_digest.0@) + u32_bytes(e.required_peer_count) + u32_bytes(
        e.acknowledged_peer_count,
    ) + opt_raw_bytes(opt_digest_view(e.readiness_digest)) + opt_u64_bytes(e.drain_deadline_unix_ms)
}

pub open spec fn epoch_publications_concat(v: Seq<KeyEpochPublication>) -> Seq<u8>
    decreases v.len(),
{
    if v.len() == 0 {
        Seq::empty()
    } else {
        epoch_publications_concat(v.drop_last()) + epoch_publication_bytes(v.last())
    }
}

pub open spec fn publication_material(p: NodeKeyPublication) -> Seq<u8> {
    u16_bytes(p.schema_version) + text_bytes(p.cluster_id@) + text_bytes(p.node_name@) + text_bytes(
        p.node_uid@,
    ) + u64_bytes(p.key_revision.0) + u64_bytes(p.next_epoch) + u64_bytes(p.retired_through_epoch)
        + u64_bytes(p.revoked_through_epoch) + u64_bytes(p.epochs@.len() as u64)
        + epoch_publications_concat(p.epochs@)
}

/// The digest committing to every publication field except the digest itself.
pub open spec fn publication_digest_spec(p: NodeKeyPublication) -> Seq<u8> {
    sha256_spec(text_bytes(PUBLICATION_DIGEST_DOMAIN@) + publication_material(p))
}

/// The per-epoch shape that a verified publication has.
pub open spec fn publication_epoch_ok(p: NodeKeyPublication, e: KeyEpochPublication) -> bool {
    &&& e.epoch != 0
    &&& e.epoch < p.next_epoch
    &&& e.epoch > p.retired_through_epoch
    &&& e.epoch > p.revoked_through_epoch
    &&& !all_zero(e.public_key.0@)
    &&& e.valid_from_unix_ms < e.valid_until_unix_ms
    &&& e.valid_until_unix_ms - e.valid_from_unix_ms <= MAX_KEY_LIFETIME_MS
    &&& e.required_peer_count <= MAX_ROTATION_PEERS
    &&& e.acknowledged_peer_count <= e.required_peer_count
    &&& e.phase == KeyEpochPhase::Prepared ==> e.required_peer_count != e.acknowledged_peer_count
        && e.readiness_digest is None
    &&& e.phase != KeyEpochPhase::Prepared ==> e.required_peer_count == e.acknowledged_peer_count
        && e.readiness_digest is Some
    &&& (e.phase == KeyEpochPhase::Draining) == (e.drain_deadline_unix_ms is Some)
}

/// What `NodeKeyPublication::verify` accepts (besides the identity check).
pub open spec fn publication_ok(p: NodeKeyPublication) -> bool {
    let es = p.epochs@;
    &&& identity_ok(p.cluster_id@, p.node_name@, p.node_uid@)
    &&& p.schema_version == NODE_KEY_PUBLICATION_SCHEMA_VERSION
    &&& p.next_epoch != 0
    &&& es.len() <= 2
    &&& p.retired_through_epoch < p.next_epoch
    &&& p.revoked_through_epoch < p.next_epoch
    &&& forall|i: int| 0 <= i < es.len() ==> publication_epoch_ok(p, #[trigger] es[i])
    &&& forall|i: int, j: int|
        0 <= i < j < es.len() ==> {
            &&& (#[trigger] es[i]).epoch < (#[trigger] es[j]).epoch
            &&& es[i].public_key.0@ != es[j].public_key.0@
            &&& es[i].phase != es[j].phase
            &&& !(pending_phase(es[i].phase) && pending_phase(es[j].phase))
        }
    &&& (exists|i: int| 0 <= i < es.len() && #[trigger] es[i].phase == KeyEpochPhase::Draining)
        ==> (exists|j: int| 0 <= j < es.len() && #[trigger] es[j].phase == KeyEpochPhase::Active)
    &&& p.publication_digest.0@ == publication_digest_spec(p)
}

/// The public record of one local epoch.
pub closed spec fn epoch_publication_of(e: LocalKeyEpoch) -> KeyEpochPublication {
    KeyEpochPublication {
        epoch: e.epoch,
        public_key: e.public_key,
        phase: e.phase,
        valid_from_unix_ms: e.valid_from_unix_ms,
        valid_until_unix_ms: e.valid_until_unix_ms,
        topology_revision: e.barrier.topology_revision,
        barrier_digest: e.barrier.barrier_digest,
        required_peer_count: e.barrier.required_peer_uids@.len() as u32,
        acknowledged_peer_count: e.acknowledgements@.len() as u32,
        readiness_digest: match e.readiness {
            Some(c) => Some(c.readiness_digest),
            None => None,
        },
        drain_deadline_unix_ms: e.drain_deadline_unix_ms,
    }
}

/// `p` is the publication of authority `a`.
pub closed spec fn publication_of(a: NodeKeyAuthority, p: NodeKeyPublication) -> bool {
    &&& p.schema_version == NODE_KEY_PUBLICATION_SCHEMA_VERSION
    &&& p.cluster_id@ == a.cluster_id@
    &&& p.node_name@ == a.node_name@
    &&& p.node_uid@ == a.node_uid@
    &&& p.key_revision == a.key_revision
    &&& p.next_epoch == a.next_epoch
    &&& p.retired_through_epoch == a.retired_through_epoch
    &&& p.revoked_through_epoch == a.revoked_through_epoch
    &&& p.epochs@.len() == a.epochs@.len()
    &&& forall|i: int|
        0 <= i < a.epochs@.len() ==> #[trigger] p.epochs@[i] == epoch_publication_of(a.epochs@[i])
    &&& p.publication_digest.0@ == publication_digest_spec(p)
}

pub fn push_epoch_publication(out: &mut Vec<u8>, e: &KeyEpochPublication)
    ensures
        final(out)@ == old(out)@ + epoch_publication_bytes(*e),
{
    let ghost start = out@;
    push_u64(out, e.epoch);
    push_raw32(out, &e.public_key.0);
    push_u8(out, phase_code(e.phase));
    push_u64(out, e.valid_from_unix_ms);
    push_u64(out, e.valid_until_unix_ms);
    push_u64(out, e.topology_revision.0);
    push_raw32(out, &e.barrier_digest.0);
    push_u32(out, e.required_peer_count);
    push_u32(out, e.acknowledged_peer_count);
    let rd: Option<[u8; 32]> = match e.readiness_digest {
        Some(d) => Some(d.0),
        None => None,
    };
    push_opt_raw32(out, &rd);
    push_opt_u64(out, e.drain_deadline_unix_ms);
    assert(out@ =~= start + epoch_publication_bytes(*e));
}

#[verifier::spinoff_prover]
#[verifier::rlimit(40)]
pub fn push_publication_material(out: &mut Vec<u8>, p: &NodeKeyPublication)
    ensures
        final(out)@ == old(out)@ + publication_material(*p),
{
    let ghost start0 = out@;
    push_u16(out, p.schema_version);
    push_text(out, p.cluster_id.as_str());
    push_text(out, p.node_name.as_str());
    push_text(out, p.node_uid.as_str());
    push_u64(out, p.key_revision.0);
    push_u64(out, p.next_epoch);
    push_u64(out, p.retired_through_epoch);
    push_u64(out, p.revoked_through_epoch);
    push_u64(out, p.epochs.len() as u64);
    let ghost start = out@;
    let mut i: usize = 0;
    while i < p.epochs.len()
        invariant
            i <= p.epochs@.len(),
            out@ == start + epoch_publications_concat(p.epochs@.take(i as int)),
        decreases p.epochs@.len() - i,
    {
        push_epoch_publication(out, &p.epochs[i]);
        assert(p.epochs@.take(i + 1).drop_last() =~= p.epochs@.take(i as int));
        i = i + 1;
    }
    assert(p.epochs@.take(i as int) =~= p.epochs@);
    assert(out@ =~= start0 + publication_material(*p));
}

/// A publication with its digest: its committed fields, then the digest.
pub open spec fn publication_bytes(p: NodeKeyPublication) -> Seq<u8> {
    publication_material(p) + raw_bytes(p.publication_digest.0@)
}

pub fn push_publication(out: &mut Vec<u8>, p: &NodeKeyPublication)
    ensures
        final(out)@ == old(out)@ + publication_bytes(*p),
{
    let ghost start = out@;
    push_publication_material(out, p);
    push_raw32(out, &p.publication_digest.0);
    assert(out@ =~= start + publication_bytes(*p));
}

/// `a` is a copy of `b`: every field equal, the epoch list element by element.
pub open spec fn publication_copy(a: NodeKeyPublication, b: NodeKeyPublication) -> bool {
    &&& a.schema_version == b.schema_version
    &&& a.cluster_id == b.cluster_id
    &&& a.node_name == b.node_name
    &&& a.node_uid == b.node_uid
    &&& a.key_revision == b.key_revision
    &&& a.next_epoch == b.next_epoch
    &&& a.retired_through_epoch == b.retired_through_epoch
    &&& a.revoked_through_epoch == b.revoked_through_epoch
    &&& a.epochs@ == b.epochs@
    &&& a.publication_digest == b.publication_digest
}

impl NodeKeyPublication {
    /// A copy of this publication.
    pub fn duplicate(&self) -> (r: Self)
        ensures
            publication_copy(r, *self),
    {
        let mut epochs: Vec<KeyEpochPublication> = Vec::new();
        let mut i: usize = 0;
        while i < self.epochs.len()
            invariant
                i <= self.epochs@.len(),
                epochs@ == self.epochs@.take(i as int),
            decreases self.epochs@.len() - i,
        {
            epochs.push(self.epochs[i]);
            assert(epochs@ =~= self.epochs@.take(i + 1));
            i = i + 1;
        }
        assert(self.epochs@.take(i as int) =~= self.epochs@);
        NodeKeyPublication {
            schema_version: self.schema_version,
            cluster_id: self.cluster_id.clone(),
            node_name: self.node_name.clone(),
            node_uid: self.node_uid.clone(),
            key_revision: self.key_revision,
            next_epoch: self.next_epoch,
            retired_through_epoch: self.retired_through_epoch,
            revoked_through_epoch: self.revoked_through_epoch,
            epochs,
            publication_digest: self.publication_digest,
        }
    }

    pub fn calculate_digest(&self) -> (d: NodeKeyPublicationDigest)
        ensures
            d.0@ == publication_digest_spec(*self),
    {
        let mut m: Vec<u8> = Vec::new();
        push_text(&mut m, PUBLICATION_DIGEST_DOMAIN);
        push_publication_material(&mut m, self);
        assert(m@ =~= text_bytes(PUBLICATION_DIGEST_DOMAIN@) + publication_material(*self));
        NodeKeyPublicationDigest(sha256(&m))
    }

    fn epoch_shape_ok(&self, e: &KeyEpochPublication) -> (r: bool)
        ensures
            r == publication_epoch_ok(*self, *e),
    {
        if e.epoch == 0 || e.epoch >= self.next_epoch || e.epoch <= self.retired_through_epoch
            || e.epoch <= self.revoked_through_epoch || bytes32_is_zero(&e.public_key.0)
            || e.valid_from_unix_ms >= e.valid_until_unix_ms || e.valid_until_unix_ms
            - e.valid_from_unix_ms > MAX_KEY_LIFETIME_MS || e.required_peer_count as usize
            > MAX_ROTATION_PEERS || e.required_peer_count < e.acknowledged_peer_count {
            return false;
        }
        if e.phase == KeyEpochPhase::Prepared {
            if e.required_peer_count == e.acknowledged_peer_count || e.readiness_digest.is_some() {
                return false;
            }
        } else {
            if e.required_peer_count != e.acknowledged_peer_count || e.readiness_digest.is_none() {
                return false;
            }
        }
        (e.phase == KeyEpochPhase::Draining) == e.drain_deadline_unix_ms.is_some()
    }

    /// Verifies the public-only schema, monotonic shape, and digest.
    pub fn verify(&self) -> (r: Result<(), KeyAuthorityError>)
        ensures
            r is Ok <==> publication_ok(*self),
            !identity_ok(self.cluster_id@, self.node_name@, self.node_uid@) ==> (r is Err
                && r->Err_0 is InvalidIdentity),
            identity_ok(self.cluster_id@, self.node_name@, self.node_uid@) && !publication_ok(*self)
                ==> (r is Err && r->Err_0 is InvalidPublication),
    {
        validate_identity(self.cluster_id.as_str(), self.node_name.as_str(), self.node_uid.as_str())?;
        if self.schema_version != NODE_KEY_PUBLICATION_SCHEMA_VERSION || self.next_epoch == 0
            || self.epochs.len() > 2 || self.retired_through_epoch >= self.next_epoch
            || self.revoked_through_epoch >= self.next_epoch {
            return Err(KeyAuthorityError::InvalidPublication);
        }
        let n = self.epochs.len();
        let mut all_ok = true;
        let mut i: usize = 0;
        while i < n
            invariant
                n == self.epochs@.len(),
                i <= n,
                all_ok == (forall|j: int| 0 <= j < i ==> publication_epoch_ok(*self, #[trigger] self.epochs@[j])),
            decreases n - i,
        {
            if !self.epoch_shape_ok(&self.epochs[i]) {
                all_ok = false;
            }
            i = i + 1;
        }
        if !all_ok {
            return Err(KeyAuthorityError::InvalidPublication);
        }
        if n == 2 {
            let a = &self.epochs[0];
            let b = &self.epochs[1];
            if a.epoch >= b.epoch || bytes32_eq(&a.public_key.0, &b.public_key.0) || a.phase
                == b.phase || ((a.phase == KeyEpochPhase::Prepared || a.phase
                == KeyEpochPhase::MutuallyAttested) && (b.phase == KeyEpochPhase::Prepared
                || b.phase == KeyEpochPhase::MutuallyAttested)) {
                return Err(KeyAuthorityError::InvalidPublication);
            }
        }
        let mut has_draining = false;
        let mut has_active = false;
        let mut k: usize = 0;
        while k < n
            invariant
                n == self.epochs@.len(),
                k <= n,
                has_draining == (exists|j: int|
                    0 <= j < k && #[trigger] self.epochs@[j].phase == KeyEpochPhase::Draining),
                has_active == (exists|j: int|
                    0 <= j < k && #[trigger] self.epochs@[j].phase == KeyEpochPhase::Active),
            decreases n - k,
        {
            if self.epochs[k].phase == KeyEpochPhase::Draining {
                has_draining = true;
            }
            if self.epochs[k].phase == KeyEpochPhase::Active {
                has_active = true;
            }
            k = k + 1;
        }
        if has_draining && !has_active {
            return Err(KeyAuthorityError::InvalidPublication);
        }
        let expected = self.calculate_digest();
        if !bytes32_eq(&self.publication_digest.0, &expected.0) {
            return Err(KeyAuthorityError::InvalidPublication);
        }
        Ok(())
    }
}

} // verus!

verus! {

/// A consistent epoch never holds more acknowledgements than its barrier
/// names peers.
proof fn lemma_acks_within_barrier(node_uid: Seq<char>, e: LocalKeyEpoch)
    requires
        epoch_ok(node_uid, e),
    ensures
        e.acknowledgements@.len() <= e.barrier.required_peer_uids@.len(),
        e.barrier.required_peer_uids@.len() <= MAX_ROTATION_PEERS,
{
    let ks = texts_view(ack_peers(e.acknowledgements@));
    let rs = texts_view(e.barrier.required_peer_uids@);
    lemma_strictly_sorted_no_duplicates(ks);
    lemma_strictly_sorted_no_duplicates(rs);
    ks.unique_seq_to_set();
    rs.unique_seq_to_set();
    assert forall|x: Seq<char>| ks.to_set().contains(x) implies rs.to_set().contains(x) by {
        let i = choose|i: int| 0 <= i < ks.len() && ks[i] == x;
        assert(ks[i] == e.acknowledgements@[i].peer_node_uid@);
        assert(ack_fits(node_uid, e, e.acknowledgements@[i]));
    }
    vstd::seq_lib::seq_to_set_is_finite(rs);
    vstd::set_lib::lemma_len_subset(ks.to_set(), rs.to_set());
}

impl NodeKeyAuthority {
    /// Every held public key is nonzero.
    /// Builds the public-only, digest-bound publication of this authority.
    pub fn publication(&self) -> (r: Result<NodeKeyPublication, KeyAuthorityError>)
        ensures
            r is Ok <==> authority_ok(*self),
            r matches Ok(p) ==> publication_of(*self, p) && publication_ok(p),
    {
        self.validate()?;
        let mut epochs: Vec<KeyEpochPublication> = Vec::new();
        let mut i: usize = 0;
        while i < self.epochs.len()
            invariant
                i <= self.epochs@.len(),
                epochs@.len() == i,
                forall|j: int| 0 <= j < i ==> #[trigger] epochs@[j] == epoch_publication_of(self.epochs@[j]),
            decreases self.epochs@.len() - i,
        {
            let e = &self.epochs[i];
            let readiness_digest = match &e.readiness {
                Some(c) => Some(c.readiness_digest),
                None => None,
            };
            epochs.push(
                KeyEpochPublication {
                    epoch: e.epoch,
                    public_key: e.public_key,
                    phase: e.phase,
                    valid_from_unix_ms: e.valid_from_unix_ms,
                    valid_until_unix_ms: e.valid_until_unix_ms,
                    topology_revision: e.barrier.topology_revision,
                    barrier_digest: e.barrier.barrier_digest,
                    required_peer_count: e.barrier.required_peer_uids.len() as u32,
                    acknowledged_peer_count: e.acknowledgements.len() as u32,
                    readiness_digest,
                    drain_deadline_unix_ms: e.drain_deadline_unix_ms,
                },
            );
            i = i + 1;
        }
        let mut publication = NodeKeyPublication {
            schema_version: NODE_KEY_PUBLICATION_SCHEMA_VERSION,
            cluster_id: self.cluster_id.clone(),
            node_name: self.node_name.clone(),
            node_uid: self.node_uid.clone(),
            key_revision: self.key_revision,
            next_epoch: self.next_epoch,
            retired_through_epoch: self.retired_through_epoch,
            revoked_through_epoch: self.revoked_through_epoch,
            epochs,
            publication_digest: NodeKeyPublicationDigest([0u8; 32]),
        };
        let d = publication.calculate_digest();
        publication.publication_digest = d;
        proof {
            lemma_publication_verifies(*self, publication);
        }
        Ok(publication)
    }
}

/// The publication of a consistent authority passes
/// `NodeKeyPublication::verify`.
pub proof fn lemma_publication_verifies(a: NodeKeyAuthority, p: NodeKeyPublication)
    requires
        authority_ok(a),
        publication_of(a, p),
    ensures
        publication_ok(p),
{
    let es = p.epochs@;
    let ls = a.epochs@;
    assert forall|i: int| 0 <= i < es.len() implies publication_epoch_ok(p, #[trigger] es[i]) by {
        assert(es[i] == epoch_publication_of(ls[i]));
        assert(epoch_ok(a.node_uid@, ls[i]));
        lemma_acks_within_barrier(a.node_uid@, ls[i]);
        assert(!all_zero(ls[i].public_key.0@));
    }
    assert forall|i: int, j: int| 0 <= i < j < es.len() implies {
        &&& (#[trigger] es[i]).epoch < (#[trigger] es[j]).epoch
        &&& es[i].public_key.0@ != es[j].public_key.0@
        &&& es[i].phase != es[j].phase
        &&& !(pending_phase(es[i].phase) && pending_phase(es[j].phase))
    } by {
        assert(es[i] == epoch_publication_of(ls[i]));
        assert(es[j] == epoch_publication_of(ls[j]));
    }
    if exists|i: int| 0 <= i < es.len() && #[trigger] es[i].phase == KeyEpochPhase::Draining {
        let i = choose|i: int| 0 <= i < es.len() && #[trigger] es[i].phase == KeyEpochPhase::Draining;
        assert(es[i] == epoch_publication_of(ls[i]));
        assert(ls[i].phase == KeyEpochPhase::Draining);
        let j = choose|j: int| 0 <= j < ls.len() && #[trigger] ls[j].phase == KeyEpochPhase::Active;
        assert(es[j] == epoch_publication_of(ls[j]));
    }
}

} // verus!

verus! {

/// The Node identity that a transport authenticated.
#[derive(Clone, Debug)]
pub struct AuthenticatedNodeIdentity {
    pub cluster_id: String,
    pub node_name: String,
    pub node_uid: String,
}

#[derive(Clone, Copy, Debug, PartialEq, Eq, Structural)]
pub enum PublicationAdmission {
    Accepted,
    Idempotent,
}

pub open spec fn epoch_publication_same(a: KeyEpochPublication, b: KeyEpochPublication) -> bool {
    &&& a.epoch == b.epoch
    &&& a.public_key.0@ == b.public_key.0@
    &&& a.phase == b.phase
    &&& a.valid_from_unix_ms == b.valid_from_unix_ms
    &&& a.valid_until_unix_ms == b.valid_until_unix_ms
    &&& a.topology_revision == b.topology_revision
    &&& a.barrier_digest.0@ == b.barrier_digest.0@
    &&& a.required_peer_count == b.required_peer_count
    &&& a.acknowledged_peer_count == b.acknowledged_peer_count
    &&& opt_digest_view(a.readiness_digest) == opt_digest_view(b.readiness_digest)
    &&& a.drain_deadline_unix_ms == b.drain_deadline_unix_ms
}

/// Field-by-field equality of two publications.
pub open spec fn publication_same(a: NodeKeyPublication, b: NodeKeyPublication) -> bool {
    &&& a.schema_version == b.schema_version
    &&& a.cluster_id@ == b.cluster_id@
    &&& a.node_name@ == b.node_name@
    &&& a.node_uid@ == b.node_uid@
    &&& a.key_revision == b.key_revision
    &&& a.next_epoch == b.next_epoch
    &&& a.retired_through_epoch == b.retired_through_epoch
    &&& a.revoked_through_epoch == b.revoked_through_epoch
    &&& a.epochs@.len() == b.epochs@.len()
    &&& forall|i: int|
        0 <= i < a.epochs@.len() ==> epoch_publication_same(#[trigger] a.epochs@[i], b.epochs@[i])
    &&& a.publication_digest.0@ == b.publication_digest.0@
}

/// A previously published epoch `o` regressed in publication `p`: it
/// changed its key or moved back in phase, or it vanished without being
/// retired or revoked.
pub open spec fn epoch_regressed(p: NodeKeyPublication, o: KeyEpochPublication) -> bool {
    if exists|i: int| 0 <= i < p.epochs@.len() && (#[trigger] p.epochs@[i]).epoch == o.epoch {
        let n = p.epochs@[choose|i: int|
            0 <= i < p.epochs@.len() && (#[trigger] p.epochs@[i]).epoch == o.epoch];
        n.public_key.0@ != o.public_key.0@ || phase_rank(n.phase) < phase_rank(o.phase)
    } else {
        o.epoch > p.retired_through_epoch && o.epoch > p.revoked_through_epoch
    }
}

pub open spec fn publication_regressed(previous: NodeKeyPublication, p: NodeKeyPublication) -> bool {
    ||| p.next_epoch < previous.next_epoch
    ||| p.retired_through_epoch < previous.retired_through_epoch
    ||| p.revoked_through_epoch < previous.revoked_through_epoch
    ||| exists|j: int|
        0 <= j < previous.epochs@.len() && epoch_regressed(p, #[trigger] previous.epochs@[j])
}

pub open spec fn same_node(
    cluster_id: Seq<char>,
    node_name: Seq<char>,
    node_uid: Seq<char>,
    p: NodeKeyPublication,
) -> bool {
    cluster_id == p.cluster_id@ && node_name == p.node_name@ && node_uid == p.node_uid@
}

/// The admission decision for `publication` given the previously admitted
/// publication of the same Node, if any.
pub open spec fn admission_spec(
    authenticated: AuthenticatedNodeIdentity,
    publication: NodeKeyPublication,
    previous: Option<NodeKeyPublication>,
) -> Result<PublicationAdmission, KeyAuthorityError> {
    if !identity_ok(publication.cluster_id@, publication.node_name@, publication.node_uid@) {
        Err(KeyAuthorityError::InvalidIdentity)
    } else if !publication_ok(publication) {
        Err(KeyAuthorityError::InvalidPublication)
    } else if !same_node(
        authenticated.cluster_id@,
        authenticated.node_name@,
        authenticated.node_uid@,
        publication,
    ) {
        Err(KeyAuthorityError::UnauthenticatedPublication)
    } else {
        match previous {
            None => Ok(PublicationAdmission::Accepted),
            Some(q) => {
                if !identity_ok(q.cluster_id@, q.node_name@, q.node_uid@) {
                    Err(KeyAuthorityError::InvalidIdentity)
                } else if !publication_ok(q) {
                    Err(KeyAuthorityError::InvalidPublication)
                } else if !same_node(q.cluster_id@, q.node_name@, q.node_uid@, publication) {
                    Err(KeyAuthorityError::NodeReplacementRequiresFence)
                } else if publication.key_revision.0 < q.key_revision.0 {
                    Err(KeyAuthorityError::PublicationReplay)
                } else if publication.key_revision.0 == q.key_revision.0 {
                    if publication_same(publication, q) {
                        Ok(PublicationAdmission::Idempotent)
                    } else {
                        Err(KeyAuthorityError::PublicationMutation)
                    }
                } else if publication_regressed(q, publication) {
                    Err(KeyAuthorityError::PublicationRegression)
                } else {
                    Ok(PublicationAdmission::Accepted)
                }
            },
        }
    }
}

/// A Node's own publication is admitted under its authenticated identity:
/// accepted as the first publication, and an exact replay of itself is
/// idempotent.
pub proof fn lemma_own_publication_admitted(
    a: NodeKeyAuthority,
    p: NodeKeyPublication,
    authenticated: AuthenticatedNodeIdentity,
)
    requires
        authority_ok(a),
        publication_of(a, p),
        authenticated.cluster_id@ == a.cluster_id_spec(),
        authenticated.node_name@ == a.node_name_spec(),
        authenticated.node_uid@ == a.node_uid_spec(),
    ensures
        admission_spec(authenticated, p, None) == Ok::<PublicationAdmission, KeyAuthorityError>(
            PublicationAdmission::Accepted,
        ),
        admission_spec(authenticated, p, Some(p)) == Ok::<PublicationAdmission, KeyAuthorityError>(
            PublicationAdmission::Idempotent,
        ),
{
    lemma_publication_verifies(a, p);
    assert forall|i: int| 0 <= i < p.epochs@.len() implies epoch_publication_same(
        #[trigger] p.epochs@[i],
        p.epochs@[i],
    ) by {}
    assert(publication_same(p, p));
}

pub fn epoch_publication_equal(a: &KeyEpochPublication, b: &KeyEpochPublication) -> (r: bool)
    ensures
        r == epoch_publication_same(*a, *b),
{
    let readiness_same = match (&a.readiness_digest, &b.readiness_digest) {
        (Some(x), Some(y)) => bytes32_eq(&x.0, &y.0),
        (None, None) => true,
        _ => false,
    };
    a.epoch == b.epoch && bytes32_eq(&a.public_key.0, &b.public_key.0) && a.phase == b.phase
        && a.valid_from_unix_ms == b.valid_from_unix_ms && a.valid_until_unix_ms
        == b.valid_until_unix_ms && a.topology_revision.0 == b.topology_revision.0 && bytes32_eq(
        &a.barrier_digest.0,
        &b.barrier_digest.0,
    ) && a.required_peer_count == b.required_peer_count && a.acknowledged_peer_count
        == b.acknowledged_peer_count && readiness_same && a.drain_deadline_unix_ms
        == b.drain_deadline_unix_ms
}

impl NodeKeyPublication {
    /// Field-by-field equality with `other`.
    pub fn same_as(&self, other: &NodeKeyPublication) -> (r: bool)
        ensures
            r == publication_same(*self, *other),
    {
        if self.schema_version != other.schema_version || !text_eq(
            self.cluster_id.as_str(),
            other.cluster_id.as_str(),
        ) || !text_eq(self.node_name.as_str(), other.node_name.as_str()) || !text_eq(
            self.node_uid.as_str(),
            other.node_uid.as_str(),
        ) || self.key_revision.0 != other.key_revision.0 || self.next_epoch != other.next_epoch
            || self.retired_through_epoch != other.retired_through_epoch
            || self.revoked_through_epoch != other.revoked_through_epoch || self.epochs.len()
            != other.epochs.len() || !bytes32_eq(
            &self.publication_digest.0,
            &other.publication_digest.0,
        ) {
            return false;
        }
        let mut i: usize = 0;
        while i < self.epochs.len()
            invariant
                i <= self.epochs@.len(),
                self.epochs@.len() == other.epochs@.len(),
                forall|j: int|
                    0 <= j < i ==> epoch_publication_same(#[trigger] self.epochs@[j], other.epochs@[j]),
            decreases self.epochs@.len() - i,
        {
            if !epoch_publication_equal(&self.epochs[i], &other.epochs[i]) {
                return false;
            }
            i = i + 1;
        }
        true
    }
}

/// Whether some epoch of `previous` regressed in `publication`.
fn find_epoch_regression(publication: &NodeKeyPublication, previous: &NodeKeyPublication) -> (r: bool)
    requires
        publication_ok(*publication),
    ensures
        r == exists|j: int|
            0 <= j < previous.epochs@.len() && epoch_regressed(
                *publication,
                #[trigger] previous.epochs@[j],
            ),
{
    let mut j: usize = 0;
    while j < previous.epochs.len()
        invariant
            publication_ok(*publication),
            j <= previous.epochs@.len(),
            forall|q: int| 0 <= q < j ==> !epoch_regressed(*publication, #[trigger] previous.epochs@[q]),
        decreases previous.epochs@.len() - j,
    {
        let o = &previous.epochs[j];
        let mut found: Option<usize> = None;
        let mut i: usize = 0;
        while i < publication.epochs.len() && found.is_none()
            invariant
                i <= publication.epochs@.len(),
                found matches Some(k) ==> k < publication.epochs@.len()
                    && publication.epochs@[k as int].epoch == o.epoch,
                found is None ==> forall|q: int|
                    0 <= q < i ==> (#[trigger] publication.epochs@[q]).epoch != o.epoch,
            decreases publication.epochs@.len() - i,
        {
            if publication.epochs[i].epoch == o.epoch {
                found = Some(i);
            }
            i = i + 1;
        }
        let regressed = match found {
            Some(k) => {
                let n = &publication.epochs[k];
                proof {
                    let es = publication.epochs@;
                    let c = choose|c: int| 0 <= c < es.len() && (#[trigger] es[c]).epoch == o.epoch;
                    if c < k {
                        assert(es[c].epoch < es[k as int].epoch);
                    } else if c > k {
                        assert(es[k as int].epoch < es[c].epoch);
                    }
                }
                !bytes32_eq(&n.public_key.0, &o.public_key.0) || phase_code(n.phase) < phase_code(
                    o.phase,
                )
            },
            None => o.epoch > publication.retired_through_epoch && o.epoch
                > publication.revoked_through_epoch,
        };
        if regressed {
            return true;
        }
        j = j + 1;
    }
    false
}

/// Admits a public-key update only under its authenticated Node identity.
pub fn admit_authenticated_publication(
    authenticated: &AuthenticatedNodeIdentity,
    publication: &NodeKeyPublication,
    previous: Option<&NodeKeyPublication>,
) -> (r: Result<PublicationAdmission, KeyAuthorityError>)
    ensures
        r == admission_spec(
            *authenticated,
            *publication,
            match previous {
                Some(q) => Some(*q),
                None => None,
            },
        ),
{
    publication.verify()?;
    if !text_eq(authenticated.cluster_id.as_str(), publication.cluster_id.as_str()) || !text_eq(
        authenticated.node_name.as_str(),
        publication.node_name.as_str(),
    ) || !text_eq(authenticated.node_uid.as_str(), publication.node_uid.as_str()) {
        return Err(KeyAuthorityError::UnauthenticatedPublication);
    }
    let previous = match previous {
        Some(q) => q,
        None => {
            return Ok(PublicationAdmission::Accepted);
        },
    };
    previous.verify()?;
    if !text_eq(previous.cluster_id.as_str(), publication.cluster_id.as_str()) || !text_eq(
        previous.node_name.as_str(),
        publication.node_name.as_str(),
    ) || !text_eq(previous.node_uid.as_str(), publication.node_uid.as_str()) {
        return Err(KeyAuthorityError::NodeReplacementRequiresFence);
    }
    if publication.key_revision.0 < previous.key_revision.0 {
        return Err(KeyAuthorityError::PublicationReplay);
    }
    if publication.key_revision.0 == previous.key_revision.0 {
        if publication.same_as(previous) {
            return Ok(PublicationAdmission::Idempotent);
        }
        return Err(KeyAuthorityError::PublicationMutation);
    }
    if publication.next_epoch < previous.next_epoch || publication.retired_through_epoch
        < previous.retired_through_epoch || publication.revoked_through_epoch
        < previous.revoked_through_epoch || find_epoch_regression(publication, previous) {
        return Err(KeyAuthorityError::PublicationRegression);
    }
    Ok(PublicationAdmission::Accepted)
}

/// Replaying an admissible publication over itself is idempotent.
pub proof fn lemma_publication_replay_idempotent(
    authenticated: AuthenticatedNodeIdentity,
    publication: NodeKeyPublication,
)
    requires
        publication_ok(publication),
        same_node(
            authenticated.cluster_id@,
            authenticated.node_name@,
            authenticated.node_uid@,
            publication,
        ),
    ensures
        admission_spec(authenticated, publication, Some(publication)) == Ok::<
            PublicationAdmission,
            KeyAuthorityError,
        >(PublicationAdmission::Idempotent),
{
}

/// A publication is never admitted over a previous publication of the same
/// revision with different content, nor over a newer revision.
pub proof fn lemma_publication_revision_fences(
    authenticated: AuthenticatedNodeIdentity,
    publication: NodeKeyPublication,
    previous: NodeKeyPublication,
)
    requires
        publication_ok(publication),
        publication_ok(previous),
        same_node(
            authenticated.cluster_id@,
            authenticated.node_name@,
            authenticated.node_uid@,
            publication,
        ),
        same_node(previous.cluster_id@, previous.node_name@, previous.node_uid@, publication),
    ensures
        publication.key_revision.0 < previous.key_revision.0 ==> admission_spec(
            authenticated,
            publication,
            Some(previous),
        ) == Err::<PublicationAdmission, KeyAuthorityError>(KeyAuthorityError::PublicationReplay),
        publication.key_revision.0 == previous.key_revision.0 && !publication_same(
            publication,
            previous,
        ) ==> admission_spec(authenticated, publication, Some(previous)) == Err::<
            PublicationAdmission,
            KeyAuthorityError,
        >(KeyAuthorityError::PublicationMutation),
{
}

} // verus!

verus! {

/// A copy of a list of texts.
pub fn copy_texts(v: &Vec<String>) -> (r: Vec<String>)
    ensures
        r@ == v@,
{
    let mut r: Vec<String> = Vec::new();
    let mut i: usize = 0;
    while i < v.len()
        invariant
            i <= v@.len(),
            r@ == v@.take(i as int),
        decreases v@.len() - i,
    {
        r.push(v[i].clone());
        assert(r@ =~= v@.take(i + 1));
        i = i + 1;
    }
    assert(v@.take(i as int) =~= v@);
    r
}

impl PeerEpochAcknowledgement {
    /// An identical copy.
    pub fn duplicate(&self) -> (r: Self)
        ensures
            r == *self,
    {
        PeerEpochAcknowledgement {
            peer_node_uid: self.peer_node_uid.clone(),
            target_node_uid: self.target_node_uid.clone(),
            epoch: self.epoch,
            barrier_digest: self.barrier_digest,
            peer_public_epoch: self.peer_public_epoch,
            observed_at_unix_ms: self.observed_at_unix_ms,
        }
    }
}

pub(crate) fn copy_acks(v: &Vec<PeerEpochAcknowledgement>) -> (r: Vec<PeerEpochAcknowledgement>)
    ensures
        r@ == v@,
{
    let mut r: Vec<PeerEpochAcknowledgement> = Vec::new();
    let mut i: usize = 0;
    while i < v.len()
        invariant
            i <= v@.len(),
            r@ == v@.take(i as int),
        decreases v@.len() - i,
    {
        r.push(v[i].duplicate());
        assert(r@ =~= v@.take(i + 1));
        i = i + 1;
    }
    assert(v@.take(i as int) =~= v@);
    r
}

/// `a` is a copy of `b`: equal in every field, lists element by element.
pub open spec fn barrier_copy(a: CausalEpochBarrier, b: CausalEpochBarrier) -> bool {
    &&& a.schema_version == b.schema_version
    &&& a.target_node_uid == b.target_node_uid
    &&& a.epoch == b.epoch
    &&& a.public_key_digest == b.public_key_digest
    &&& a.topology_revision == b.topology_revision
    &&& a.required_peer_uids@ == b.required_peer_uids@
    &&& a.valid_until_unix_ms == b.valid_until_unix_ms
    &&& a.barrier_digest == b.barrier_digest
}

pub open spec fn certificate_copy(a: EpochReadinessCertificate, b: EpochReadinessCertificate) -> bool {
    &&& a.barrier_digest == b.barrier_digest
    &&& a.acknowledged_peer_uids@ == b.acknowledged_peer_uids@
    &&& a.readiness_digest == b.readiness_digest
}

pub closed spec fn epoch_copy(a: LocalKeyEpoch, b: LocalKeyEpoch) -> bool {
    &&& a.epoch == b.epoch
    &&& a.public_key == b.public_key
    &&& a.private_key == b.private_key
    &&& a.valid_from_unix_ms == b.valid_from_unix_ms
    &&& a.valid_until_unix_ms == b.valid_until_unix_ms
    &&& a.phase == b.phase
    &&& barrier_copy(a.barrier, b.barrier)
    &&& a.acknowledgements@ == b.acknowledgements@
    &&& match (a.readiness, b.readiness) {
        (Some(x), Some(y)) => certificate_copy(x, y),
        (None, None) => true,
        _ => false,
    }
    &&& a.drain_deadline_unix_ms == b.drain_deadline_unix_ms
}

/// `a` is a copy of `b`: every field equal, every list element by element.
pub closed spec fn authority_copy(a: NodeKeyAuthority, b: NodeKeyAuthority) -> bool {
    &&& a.schema_version == b.schema_version
    &&& a.cluster_id == b.cluster_id
    &&& a.node_name == b.node_name
    &&& a.node_uid == b.node_uid
    &&& a.key_revision == b.key_revision
    &&& a.next_epoch == b.next_epoch
    &&& a.retired_through_epoch == b.retired_through_epoch
    &&& a.revoked_through_epoch == b.revoked_through_epoch
    &&& a.epochs@.len() == b.epochs@.len()
    &&& forall|i: int| 0 <= i < a.epochs@.len() ==> epoch_copy(#[trigger] a.epochs@[i], b.epochs@[i])
}

impl CausalEpochBarrier {
    pub fn duplicate(&self) -> (r: Self)
        ensures
            barrier_copy(r, *self),
    {
        CausalEpochBarrier {
            schema_version: self.schema_version,
            target_node_uid: self.target_node_uid.clone(),
            epoch: self.epoch,
            public_key_digest: self.public_key_digest,
            topology_revision: self.topology_revision,
            required_peer_uids: copy_texts(&self.required_peer_uids),
            valid_until_unix_ms: self.valid_until_unix_ms,
            barrier_digest: self.barrier_digest,
        }
    }
}

impl EpochReadinessCertificate {
    pub fn duplicate(&self) -> (r: Self)
        ensures
            certificate_copy(r, *self),
    {
        EpochReadinessCertificate {
            barrier_digest: self.barrier_digest,
            acknowledged_peer_uids: copy_texts(&self.acknowledged_peer_uids),
            readiness_digest: self.readiness_digest,
        }
    }
}

impl LocalKeyEpoch {
    pub fn duplicate(&self) -> (r: Self)
        ensures
            epoch_copy(r, *self),
    {
        let readiness = match &self.readiness {
            Some(c) => Some(c.duplicate()),
            None => None,
        };
        LocalKeyEpoch {
            epoch: self.epoch,
            public_key: self.public_key,
            private_key: self.private_key.duplicate(),
            valid_from_unix_ms: self.valid_from_unix_ms,
            valid_until_unix_ms: self.valid_until_unix_ms,
            phase: self.phase,
            barrier: self.barrier.duplicate(),
            acknowledgements: copy_acks(&self.acknowledgements),
            readiness,
            drain_deadline_unix_ms: self.drain_deadline_unix_ms,
        }
    }
}

impl NodeKeyAuthority {
    /// A copy of this authority, equal in every field.
    pub fn duplicate(&self) -> (r: Self)
        ensures
            authority_copy(r, *self),
    {
        let mut epochs: Vec<LocalKeyEpoch> = Vec::new();
        let mut i: usize = 0;
        while i < self.epochs.len()
            invariant
                i <= self.epochs@.len(),
                epochs@.len() == i,
                forall|j: int| 0 <= j < i ==> epoch_copy(#[trigger] epochs@[j], self.epochs@[j]),
            decreases self.epochs@.len() - i,
        {
            epochs.push(self.epochs[i].duplicate());
            i = i + 1;
        }
        NodeKeyAuthority {
            schema_version: self.schema_version,
            cluster_id: self.cluster_id.clone(),
            node_name: self.node_name.clone(),
            node_uid: self.node_uid.clone(),
            key_revision: self.key_revision,
            next_epoch: self.next_epoch,
            retired_through_epoch: self.retired_through_epoch,
            revoked_through_epoch: self.revoked_through_epoch,
            epochs,
        }
    }
}

} // verus!

verus! {

/// What preparing an epoch on `a` answers before any key is drawn: it
/// succeeds only when admissible, refuses a full or pending epoch list as a
/// capacity/transition error, and otherwise a bad lifetime as such.
pub open spec fn prepare_answer(a: NodeKeyAuthority, from: u64, until: u64, r: Result<u64, KeyAuthorityError>) -> bool {
    &&& r is Ok ==> prepare_admissible(a, from, until)
    &&& authority_ok(a) && !prepare_capacity_ok(a) ==> r == Err::<u64, KeyAuthorityError>(
        KeyAuthorityError::EpochCapacityOrTransition,
    )
    &&& authority_ok(a) && prepare_capacity_ok(a) && !lifetime_ok(from, until) ==> r == Err::<u64, KeyAuthorityError>(
        KeyAuthorityError::InvalidLifetime,
    )
}

/// What recording an acknowledgement on `a` answers: an exact replay of a
/// recorded acknowledgement succeeds unchanged, a new admissible one is
/// recorded, and a mutated replay is refused.
pub open spec fn acknowledge_answer(
    a: NodeKeyAuthority,
    peer_uid: Seq<char>,
    k: PeerEpochAcknowledgement,
    now: u64,
    r: Result<bool, KeyAuthorityError>,
) -> bool {
    &&& r matches Ok(changed) ==> ack_admissible(a, peer_uid, k, now) && changed == !ack_already_recorded(a, k)
    &&& r == Ok::<bool, KeyAuthorityError>(false) <==> ack_admissible(a, peer_uid, k, now) && ack_replayed(a, k)
    &&& r == Ok::<bool, KeyAuthorityError>(true) ==> ack_admissible(a, peer_uid, k, now) && !ack_already_recorded(
        a,
        k,
    ) && a.key_revision_spec() < u64::MAX
    &&& ack_admissible(a, peer_uid, k, now) && ack_already_recorded(a, k) && !ack_replayed(a, k) ==> (r is Err
        && r->Err_0 is AcknowledgementMutation)
}

/// What activating an epoch on `a` answers: it succeeds only when
/// admissible, and refuses a bad drain window, an unknown epoch, or an
/// unmet activation barrier with the matching error.
pub open spec fn activate_answer(
    a: NodeKeyAuthority,
    epoch: u64,
    topology: Revision,
    now: u64,
    drain_window: u64,
    r: Result<(), KeyAuthorityError>,
) -> bool {
    let window_ok = 0 < drain_window <= MAX_EPOCH_DRAIN_MS;
    &&& r is Ok ==> activate_admissible(a, epoch, topology, now, drain_window)
    &&& authority_ok(a) && !window_ok ==> (r is Err && r->Err_0 is InvalidDrainWindow)
    &&& authority_ok(a) && window_ok && epoch_position(a, epoch) is None ==> r == Err::<(), KeyAuthorityError>(
        KeyAuthorityError::UnknownEpoch(epoch),
    )
    &&& authority_ok(a) && window_ok && epoch_position(a, epoch) is Some && !activation_barrier_met(
        a,
        epoch,
        topology,
        now,
    ) ==> (r is Err && r->Err_0 is ActivationBarrierNotSatisfied)
    &&& authority_ok(a) && window_ok && activation_barrier_met(a, epoch, topology, now) && !drain_fits(
        a,
        now,
        drain_window,
    ) ==> (r is Err && r->Err_0 is InvalidDrainWindow)
}

/// What retiring a drained epoch on `a` answers: it succeeds only when
/// admissible, and refuses bad drain evidence, an unknown epoch, or an
/// epoch that is not draining with the matching error.
pub open spec fn retire_answer(a: NodeKeyAuthority, p: EpochDrainProof, now: u64, r: Result<(), KeyAuthorityError>) -> bool {
    let evidence_ok = drain_proof_ok(p) && drain_evidence_fits(a, p, now);
    &&& r is Ok ==> retire_admissible(a, p, now)
    &&& authority_ok(a) && !evidence_ok ==> (r is Err && r->Err_0 is InvalidDrainProof)
    &&& authority_ok(a) && evidence_ok && epoch_position(a, p.epoch) is None ==> r == Err::<(), KeyAuthorityError>(
        KeyAuthorityError::UnknownEpoch(p.epoch),
    )
    &&& authority_ok(a) && evidence_ok && epoch_position(a, p.epoch) is Some && !draining_epoch(a, p.epoch) ==> (r is Err
        && r->Err_0 is EpochCapacityOrTransition)
}

/// What revoking through an epoch on `a` answers: it succeeds only when
/// admissible, and refuses an epoch never issued, or a zero time, as
/// unknown.
pub open spec fn revoke_answer(
    a: NodeKeyAuthority,
    epoch: u64,
    now: u64,
    r: Result<EpochRevocationReceipt, KeyAuthorityError>,
) -> bool {
    &&& r is Ok ==> revoke_admissible(a, epoch, now)
    &&& authority_ok(a) && !(0 < epoch < a.next_epoch_spec() && now != 0) ==> r == Err::<
        EpochRevocationReceipt,
        KeyAuthorityError,
    >(KeyAuthorityError::UnknownEpoch(epoch))
}

/// Durable storage for a Node's key authority.
pub trait NodeKeyStateStore {
    /// Atomically persists the complete local authority before it is
    /// published. An error leaves the in-memory candidate uncommitted.
    fn persist(&self, authority: &NodeKeyAuthority) -> Result<(), KeyAuthorityError>;
}

/// A key authority whose every change is persisted before it becomes live.
pub struct DurableNodeKeyAuthority<S, G> {
    authority: NodeKeyAuthority,
    store: S,
    generator: G,
}

impl<S: NodeKeyStateStore, G: WireGuardKeyGenerator> DurableNodeKeyAuthority<S, G> {
    /// The live, committed authority.
    pub closed spec fn live(&self) -> NodeKeyAuthority {
        self.authority
    }

    /// Persists an initial authority before exposing it to callers.
    pub fn create(authority: NodeKeyAuthority, store: S, generator: G) -> (r: Result<
        Self,
        KeyAuthorityError,
    >)
        ensures
            r matches Ok(d) ==> d.live() == authority,
    {
        let persisted = store.persist(&authority);
        Self::created(authority, store, generator, persisted)
    }

    /// The durable authority once the store answered `persisted` for its
    /// initial state: live exactly when the store accepted it.
    fn created(authority: NodeKeyAuthority, store: S, generator: G, persisted: Result<(), KeyAuthorityError>) -> (r:
        Result<Self, KeyAuthorityError>)
        ensures
            match persisted {
                Ok(()) => r matches Ok(d) && d.live() == authority,
                Err(e) => r matches Err(x) && x == e,
            },
    {
        match persisted {
            Ok(()) => Ok(DurableNodeKeyAuthority { authority, store, generator }),
            Err(e) => Err(e),
        }
    }

    pub fn authority(&self) -> (r: &NodeKeyAuthority)
        ensures
            *r == self.live(),
    {
        &self.authority
    }

    /// Persists `candidate`, and only then makes it live.
    fn commit(&mut self, candidate: NodeKeyAuthority) -> (r: Result<(), KeyAuthorityError>)
        ensures
            r is Ok ==> final(self).live() == candidate,
            r is Err ==> final(self).live() == old(self).live(),
    {
        let persisted = self.store.persist(&candidate);
        self.adopt(candidate, persisted)
    }

    /// Makes `candidate` live exactly when the store answered that it
    /// persisted it, and passes the store's answer on.
    fn adopt(&mut self, candidate: NodeKeyAuthority, persisted: Result<(), KeyAuthorityError>) -> (r: Result<
        (),
        KeyAuthorityError,
    >)
        ensures
            r == persisted,
            r is Ok ==> final(self).live() == candidate,
            r is Err ==> final(self).live() == old(self).live(),
    {
        match persisted {
            Ok(done) => {
                self.authority = candidate;
                Ok(done)
            },
            Err(e) => Err(e),
        }
    }

    /// Durably prepares a key epoch before committing it in memory.
    pub fn prepare_epoch(
        &mut self,
        topology_revision: Revision,
        required_peer_uids: Vec<String>,
        valid_from_unix_ms: u64,
        valid_until_unix_ms: u64,
    ) -> (r: Result<u64, KeyAuthorityError>)
        ensures
            r is Err ==> final(self).live() == old(self).live(),
            r matches Ok(epoch) ==> authority_ok(final(self).live()) && exists|c: NodeKeyAuthority|
                #[trigger] authority_copy(c, old(self).live()) && prepared_successor(
                    c,
                    final(self).live(),
                    epoch,
                    topology_revision,
                    required_peer_uids@,
                    valid_from_unix_ms,
                    valid_until_unix_ms,
                ),
            exists|c: NodeKeyAuthority|
                #[trigger] authority_copy(c, old(self).live()) && prepare_answer(
                    c,
                    valid_from_unix_ms,
                    valid_until_unix_ms,
                    r,
                ),
    {
        let mut candidate = self.authority.duplicate();
        let ghost copy = candidate;
        let ghost uids = required_peer_uids@;
        let prepared = candidate.prepare_epoch(
            topology_revision,
            required_peer_uids,
            valid_from_unix_ms,
            valid_until_unix_ms,
            &mut self.generator,
        );
        let epoch = match prepared {
            Ok(epoch) => epoch,
            Err(e) => {
                assert(authority_copy(copy, old(self).live()));
                assert(prepare_answer(copy, valid_from_unix_ms, valid_until_unix_ms, Err::<u64, KeyAuthorityError>(e)));
                return Err(e);
            },
        };
        let committed = self.commit(candidate);
        assert(authority_copy(copy, old(self).live()));
        match committed {
            Ok(()) => {
                assert(prepare_answer(copy, valid_from_unix_ms, valid_until_unix_ms, Ok::<u64, KeyAuthorityError>(epoch)));
                Ok(epoch)
            },
            Err(e) => {
                assert(prepare_answer(copy, valid_from_unix_ms, valid_until_unix_ms, Err::<u64, KeyAuthorityError>(e)));
                Err(e)
            },
        }
    }

    /// Durably records one authenticated peer acknowledgement; an exact
    /// replay changes and persists nothing.
    pub fn acknowledge_epoch(
        &mut self,
        authenticated_peer_node_uid: &str,
        acknowledgement: PeerEpochAcknowledgement,
        now_unix_ms: u64,
    ) -> (r: Result<bool, KeyAuthorityError>)
        ensures
            r != Ok::<bool, KeyAuthorityError>(true) ==> final(self).live() == old(self).live(),
            r == Ok::<bool, KeyAuthorityError>(true) ==> authority_ok(final(self).live()) && exists|
                c: NodeKeyAuthority,
            |
                #[trigger] authority_copy(c, old(self).live()) && acknowledged_successor(
                    c,
                    final(self).live(),
                    acknowledgement,
                ),
            exists|c: NodeKeyAuthority|
                #[trigger] authority_copy(c, old(self).live()) && acknowledge_answer(
                    c,
                    authenticated_peer_node_uid@,
                    acknowledgement,
                    now_unix_ms,
                    r,
                ),
    {
        let mut candidate = self.authority.duplicate();
        let ghost copy = candidate;
        let ghost k = acknowledgement;
        let recorded = candidate.acknowledge_epoch(
            authenticated_peer_node_uid,
            acknowledgement,
            now_unix_ms,
        );
        assert(authority_copy(copy, old(self).live()));
        let changed = match recorded {
            Ok(changed) => changed,
            Err(e) => {
                assert(acknowledge_answer(copy, authenticated_peer_node_uid@, k, now_unix_ms, Err::<bool, KeyAuthorityError>(e)));
                return Err(e);
            },
        };
        if changed {
            match self.commit(candidate) {
                Ok(()) => {},
                Err(e) => {
                    assert(acknowledge_answer(copy, authenticated_peer_node_uid@, k, now_unix_ms, Err::<bool, KeyAuthorityError>(e)));
                    return Err(e);
                },
            }
            assert(acknowledged_successor(copy, self.live(), k));
        }
        assert(acknowledge_answer(copy, authenticated_peer_node_uid@, k, now_unix_ms, Ok::<bool, KeyAuthorityError>(changed)));
        Ok(changed)
    }

    /// Durably activates an epoch and begins draining the prior active one.
    pub fn activate_epoch(
        &mut self,
        epoch: u64,
        current_topology_revision: Revision,
        now_unix_ms: u64,
        drain_window_ms: u64,
    ) -> (r: Result<(), KeyAuthorityError>)
        ensures
            r is Err ==> final(self).live() == old(self).live(),
            r is Ok ==> authority_ok(final(self).live()) && exists|c: NodeKeyAuthority|
                #[trigger] authority_copy(c, old(self).live()) && activated_successor(
                    c,
                    final(self).live(),
                    epoch,
                    (now_unix_ms + drain_window_ms) as u64,
                ),
            exists|c: NodeKeyAuthority|
                #[trigger] authority_copy(c, old(self).live()) && activate_answer(
                    c,
                    epoch,
                    current_topology_revision,
                    now_unix_ms,
                    drain_window_ms,
                    r,
                ),
    {
        let mut candidate = self.authority.duplicate();
        let ghost copy = candidate;
        let activated = candidate.activate_epoch(epoch, current_topology_revision, now_unix_ms, drain_window_ms);
        assert(authority_copy(copy, old(self).live()));
        match activated {
            Ok(()) => {},
            Err(e) => {
                assert(activate_answer(copy, epoch, current_topology_revision, now_unix_ms, drain_window_ms, Err::<(), KeyAuthorityError>(e)));
                return Err(e);
            },
        }
        let r = self.commit(candidate);
        assert(activate_answer(copy, epoch, current_topology_revision, now_unix_ms, drain_window_ms, r));
        r
    }

    /// Durably retires a drained epoch after exact zero-state proof.
    pub fn retire_drained_epoch(&mut self, proof: &EpochDrainProof, now_unix_ms: u64) -> (r: Result<
        (),
        KeyAuthorityError,
    >)
        ensures
            r is Err ==> final(self).live() == old(self).live(),
            r is Ok ==> authority_ok(final(self).live()) && exists|c: NodeKeyAuthority|
                #[trigger] authority_copy(c, old(self).live()) && retired_successor(
                    c,
                    final(self).live(),
                    proof.epoch,
                ),
            exists|c: NodeKeyAuthority|
                #[trigger] authority_copy(c, old(self).live()) && retire_answer(c, *proof, now_unix_ms, r),
    {
        let mut candidate = self.authority.duplicate();
        let ghost copy = candidate;
        let retired = candidate.retire_drained_epoch(proof, now_unix_ms);
        assert(authority_copy(copy, old(self).live()));
        match retired {
            Ok(()) => {},
            Err(e) => {
                assert(retire_answer(copy, *proof, now_unix_ms, Err::<(), KeyAuthorityError>(e)));
                return Err(e);
            },
        }
        let r = self.commit(candidate);
        assert(retire_answer(copy, *proof, now_unix_ms, r));
        r
    }

    /// Durably emergency-revokes every epoch through `epoch`.
    pub fn revoke_through(
        &mut self,
        epoch: u64,
        reason: EpochRevocationReason,
        now_unix_ms: u64,
    ) -> (r: Result<EpochRevocationReceipt, KeyAuthorityError>)
        ensures
            r is Err ==> final(self).live() == old(self).live(),
            r matches Ok(receipt) ==> authority_ok(final(self).live()) && receipt_ok(receipt)
                && receipt.revoked_through_epoch == epoch && exists|c: NodeKeyAuthority|
                #[trigger] authority_copy(c, old(self).live()) && revoked_successor(
                    c,
                    final(self).live(),
                    epoch,
                ),
            r matches Ok(receipt) ==> {
                &&& receipt.node_uid@ == old(self).live().node_uid_spec()
                &&& receipt.reason == reason
                &&& receipt.revoked_at_unix_ms == now_unix_ms
                &&& receipt.key_revision.0 == final(self).live().key_revision_spec()
            },
            exists|c: NodeKeyAuthority|
                #[trigger] authority_copy(c, old(self).live()) && revoke_answer(c, epoch, now_unix_ms, r),
    {
        let mut candidate = self.authority.duplicate();
        let ghost copy = candidate;
        let revoked = candidate.revoke_through(epoch, reason, now_unix_ms);
        assert(authority_copy(copy, old(self).live()));
        let receipt = match revoked {
            Ok(receipt) => receipt,
            Err(e) => {
                assert(revoke_answer(copy, epoch, now_unix_ms, Err::<EpochRevocationReceipt, KeyAuthorityError>(e)));
                return Err(e);
            },
        };
        match self.commit(candidate) {
            Ok(()) => {},
            Err(e) => {
                assert(revoke_answer(copy, epoch, now_unix_ms, Err::<EpochRevocationReceipt, KeyAuthorityError>(e)));
                return Err(e);
            },
        }
        assert(revoke_answer(copy, epoch, now_unix_ms, Ok::<EpochRevocationReceipt, KeyAuthorityError>(receipt)));
        Ok(receipt)
    }
}

} // verus!

verus! {

pub const CHECKPOINT_DIGEST_DOMAIN: &'static str = "unf.node-key-checkpoint.v1";

/// One local key epoch as it is checkpointed, secret included.
#[derive(Clone)]
pub struct PersistedLocalKeyEpoch {
    pub epoch: u64,
    pub public_key: WireGuardPublicKey,
    pub private_key: [u8; 32],
    pub valid_from_unix_ms: u64,
    pub valid_until_unix_ms: u64,
    pub phase: KeyEpochPhase,
    pub barrier: CausalEpochBarrier,
    pub acknowledgements: Vec<PeerEpochAcknowledgement>,
    pub readiness: Option<EpochReadinessCertificate>,
    pub drain_deadline_unix_ms: Option<u64>,
}

/// The owner-only checkpoint of a Node's key authority, bound by a digest
/// over every other field.
#[derive(Clone)]
pub struct PersistedAuthorityDocument {
    pub schema_version: u16,
    pub cluster_id: String,
    pub node_name: String,
    pub node_uid: String,
    pub key_revision: Revision,
    pub next_epoch: u64,
    pub retired_through_epoch: u64,
    pub revoked_through_epoch: u64,
    pub epochs: Vec<PersistedLocalKeyEpoch>,
    pub checkpoint_digest: [u8; 32],
}

pub open spec fn opt_certificate_bytes(o: Option<EpochReadinessCertificate>) -> Seq<u8> {
    match o {
        Some(c) => seq![1u8] + raw_bytes(c.barrier_digest.0@) + texts_bytes(c.acknowledged_peer_uids@)
            + raw_bytes(c.readiness_digest.0@),
        None => seq![0u8],
    }
}

pub open spec fn persisted_epoch_bytes(p: PersistedLocalKeyEpoch) -> Seq<u8> {
    u64_bytes(p.epoch) + raw_bytes(p.public_key.0@) + raw_bytes(p.private_key@) + u64_bytes(
        p.valid_from_unix_ms,
    ) + u64_bytes(p.valid_until_unix_ms) + u8_bytes(phase_rank(p.phase) as u8) + barrier_material(
        p.barrier,
    ) + raw_bytes(p.barrier.barrier_digest.0@) + acks_bytes(p.acknowledgements@) + opt_certificate_bytes(
        p.readiness,
    ) + opt_u64_bytes(p.drain_deadline_unix_ms)
}

pub open spec fn persisted_epochs_concat(v: Seq<PersistedLocalKeyEpoch>) -> Seq<u8>
    decreases v.len(),
{
    if v.len() == 0 {
        Seq::empty()
    } else {
        persisted_epochs_concat(v.drop_last()) + persisted_epoch_bytes(v.last())
    }
}

/// Every field of the checkpoint but its digest.
pub open spec fn document_material(d: PersistedAuthorityDocument) -> Seq<u8> {
    u16_bytes(d.schema_version) + text_bytes(d.cluster_id@) + text_bytes(d.node_name@) + text_bytes(
        d.node_uid@,
    ) + u64_bytes(d.key_revision.0) + u64_bytes(d.next_epoch) + u64_bytes(d.retired_through_epoch)
        + u64_bytes(d.revoked_through_epoch) + u64_bytes(d.epochs@.len() as u64) + persisted_epochs_concat(
        d.epochs@,
    )
}

pub open spec fn checkpoint_digest_spec(d: PersistedAuthorityDocument) -> Seq<u8> {
    sha256_spec(text_bytes(CHECKPOINT_DIGEST_DOMAIN@) + document_material(d))
}

fn push_certificate(out: &mut Vec<u8>, o: &Option<EpochReadinessCertificate>)
    ensures
        final(out)@ == old(out)@ + opt_certificate_bytes(*o),
{
    match o {
        Some(c) => {
            out.push(1u8);
            push_raw32(out, &c.barrier_digest.0);
            push_texts(out, &c.acknowledged_peer_uids);
            push_raw32(out, &c.readiness_digest.0);
        },
        None => {
            out.push(0u8);
        },
    }
    assert(final(out)@ =~= old(out)@ + opt_certificate_bytes(*o));
}

fn push_barrier_record(out: &mut Vec<u8>, b: &CausalEpochBarrier)
    ensures
        final(out)@ == old(out)@ + barrier_material(*b) + raw_bytes(b.barrier_digest.0@),
{
    push_u16(out, b.schema_version);
    push_text(out, b.target_node_uid.as_str());
    push_u64(out, b.epoch);
    push_raw32(out, &b.public_key_digest.0);
    push_u64(out, b.topology_revision.0);
    push_texts(out, &b.required_peer_uids);
    push_u64(out, b.valid_until_unix_ms);
    push_raw32(out, &b.barrier_digest.0);
    assert(final(out)@ =~= old(out)@ + barrier_material(*b) + raw_bytes(b.barrier_digest.0@));
}

#[verifier::spinoff_prover]
#[verifier::rlimit(40)]
fn push_persisted_epoch(out: &mut Vec<u8>, p: &PersistedLocalKeyEpoch)
    ensures
        final(out)@ == old(out)@ + persisted_epoch_bytes(*p),
{
    push_u64(out, p.epoch);
    push_raw32(out, &p.public_key.0);
    push_raw32(out, &p.private_key);
    push_u64(out, p.valid_from_unix_ms);
    push_u64(out, p.valid_until_unix_ms);
    push_u8(out, phase_code(p.phase));
    push_barrier_record(out, &p.barrier);
    push_acks(out, &p.acknowledgements);
    push_certificate(out, &p.readiness);
    push_opt_u64(out, p.drain_deadline_unix_ms);
    assert(final(out)@ =~= old(out)@ + persisted_epoch_bytes(*p));
}

/// `p` records epoch `e`, secret included.
pub closed spec fn persisted_of(p: PersistedLocalKeyEpoch, e: LocalKeyEpoch) -> bool {
    &&& p.epoch == e.epoch
    &&& p.public_key == e.public_key
    &&& p.private_key@ == e.private_key.secret()
    &&& p.valid_from_unix_ms == e.valid_from_unix_ms
    &&& p.valid_until_unix_ms == e.valid_until_unix_ms
    &&& p.phase == e.phase
    &&& barrier_copy(p.barrier, e.barrier)
    &&& p.acknowledgements@ == e.acknowledgements@
    &&& match (p.readiness, e.readiness) {
        (Some(x), Some(y)) => certificate_copy(x, y),
        (None, None) => true,
        _ => false,
    }
    &&& p.drain_deadline_unix_ms == e.drain_deadline_unix_ms
}

/// `d` holds every field of `a`, epoch by epoch, under the digest it
/// states; `a` is what `d` restores to.
pub closed spec fn document_of(d: PersistedAuthorityDocument, a: NodeKeyAuthority) -> bool {
    &&& d.schema_version == a.schema_version
    &&& d.cluster_id == a.cluster_id
    &&& d.node_name == a.node_name
    &&& d.node_uid == a.node_uid
    &&& d.key_revision == a.key_revision
    &&& d.next_epoch == a.next_epoch
    &&& d.retired_through_epoch == a.retired_through_epoch
    &&& d.revoked_through_epoch == a.revoked_through_epoch
    &&& d.epochs@.len() == a.epochs@.len()
    &&& forall|i: int| 0 <= i < d.epochs@.len() ==> persisted_of(#[trigger] d.epochs@[i], a.epochs@[i])
}

/// The checks a checkpoint passes before its authority is rebuilt: schema,
/// digest, the expected Node, and nonzero secrets.
pub open spec fn checkpoint_front_ok(
    d: PersistedAuthorityDocument,
    cluster_id: Seq<char>,
    node_name: Seq<char>,
    node_uid: Seq<char>,
) -> bool {
    &&& d.schema_version == NODE_KEY_AUTHORITY_SCHEMA_VERSION
    &&& d.checkpoint_digest@ == checkpoint_digest_spec(d)
    &&& d.cluster_id@ == cluster_id
    &&& d.node_name@ == node_name
    &&& d.node_uid@ == node_uid
    &&& forall|i: int| 0 <= i < d.epochs@.len() ==> !all_zero((#[trigger] d.epochs@[i]).private_key@)
}

proof fn lemma_epoch_copy_ok(a: LocalKeyEpoch, b: LocalKeyEpoch, uid: Seq<char>)
    requires
        epoch_copy(a, b),
        epoch_ok(uid, b),
    ensures
        epoch_ok(uid, a),
{
    assert(barrier_material(a.barrier) == barrier_material(b.barrier));
    assert(a.acknowledgements@ =~= b.acknowledgements@);
    assert forall|i: int| 0 <= i < a.acknowledgements@.len() implies ack_fits(uid, a, #[trigger] a.acknowledgements@[i]) by {
        assert(ack_fits(uid, b, b.acknowledgements@[i]));
    }
    if a.phase != KeyEpochPhase::Prepared {
        let c = b.readiness->0;
        let x = a.readiness->0;
        assert(readiness_cert_ok(b, c));
        assert(readiness_cert_ok(a, x));
    }
}

/// A copy of a consistent authority is consistent.
pub proof fn lemma_authority_copy_ok(a: NodeKeyAuthority, b: NodeKeyAuthority)
    requires
        authority_copy(a, b),
        authority_ok(b),
    ensures
        authority_ok(a),
{
    let es = a.epochs@;
    let os = b.epochs@;
    assert forall|i: int| 0 <= i < es.len() implies {
        &&& epoch_ok(a.node_uid@, #[trigger] es[i])
        &&& 0 < es[i].epoch < a.next_epoch
        &&& es[i].epoch > a.retired_through_epoch
        &&& es[i].epoch > a.revoked_through_epoch
    } by {
        assert(epoch_copy(es[i], os[i]));
        lemma_epoch_copy_ok(es[i], os[i], a.node_uid@);
    }
    assert forall|i: int, j: int| 0 <= i < j < es.len() implies {
        &&& (#[trigger] es[i]).epoch < (#[trigger] es[j]).epoch
        &&& es[i].public_key.0@ != es[j].public_key.0@
        &&& es[i].phase != es[j].phase
        &&& !(pending_phase(es[i].phase) && pending_phase(es[j].phase))
    } by {
        assert(epoch_copy(es[i], os[i]));
        assert(epoch_copy(es[j], os[j]));
    }
    if exists|i: int| 0 <= i < es.len() && #[trigger] es[i].phase == KeyEpochPhase::Draining {
        let i = choose|i: int| 0 <= i < es.len() && #[trigger] es[i].phase == KeyEpochPhase::Draining;
        assert(epoch_copy(es[i], os[i]));
        assert(os[i].phase == KeyEpochPhase::Draining);
        let j = choose|j: int| 0 <= j < os.len() && #[trigger] os[j].phase == KeyEpochPhase::Active;
        assert(epoch_copy(es[j], os[j]));
        assert(es[j].phase == KeyEpochPhase::Active);
    }
}

/// Rebuilds the local epochs of a checkpoint; fails on the first all-zero
/// secret.
fn restore_epochs(persisted: &Vec<PersistedLocalKeyEpoch>) -> (r: Result<Vec<LocalKeyEpoch>, KeyAuthorityError>)
    ensures
        match r {
            Ok(v) => v@.len() == persisted@.len() && forall|j: int|
                0 <= j < v@.len() ==> persisted_of(persisted@[j], #[trigger] v@[j]),
            Err(e) => e is InvalidPrivateKey && exists|j: int|
                0 <= j < persisted@.len() && all_zero((#[trigger] persisted@[j]).private_key@),
        },
        r is Ok <==> forall|j: int| 0 <= j < persisted@.len() ==> !all_zero((#[trigger] persisted@[j]).private_key@),
{
    let mut epochs: Vec<LocalKeyEpoch> = Vec::new();
    let mut i: usize = 0;
    while i < persisted.len()
        invariant
            i <= persisted@.len(),
            epochs@.len() == i,
            forall|j: int| 0 <= j < i ==> !all_zero((#[trigger] persisted@[j]).private_key@),
            forall|j: int| 0 <= j < i ==> persisted_of(persisted@[j], #[trigger] epochs@[j]),
        decreases persisted@.len() - i,
    {
        let p = &persisted[i];
        let private_key = match WireGuardPrivateKey::from_bytes(p.private_key) {
            Ok(k) => k,
            Err(e) => {
                assert(all_zero(persisted@[i as int].private_key@));
                return Err(e);
            },
        };
        let readiness = match &p.readiness {
            Some(c) => Some(c.duplicate()),
            None => None,
        };
        epochs.push(
            LocalKeyEpoch {
                epoch: p.epoch,
                public_key: p.public_key,
                private_key,
                valid_from_unix_ms: p.valid_from_unix_ms,
                valid_until_unix_ms: p.valid_until_unix_ms,
                phase: p.phase,
                barrier: p.barrier.duplicate(),
                acknowledgements: copy_acks(&p.acknowledgements),
                readiness,
                drain_deadline_unix_ms: p.drain_deadline_unix_ms,
            },
        );
        proof {
            assert(persisted_of(persisted@[i as int], epochs@[i as int]));
        }
        i = i + 1;
    }
    Ok(epochs)
}

/// Two epochs recorded by one checkpoint entry are copies of each other.
proof fn lemma_persisted_same(p: PersistedLocalKeyEpoch, x: LocalKeyEpoch, y: LocalKeyEpoch)
    requires
        persisted_of(p, x),
        persisted_of(p, y),
    ensures
        epoch_copy(x, y),
{
    WireGuardPrivateKey::lemma_same_secret(x.private_key, y.private_key);
    assert(x.barrier.required_peer_uids@ == y.barrier.required_peer_uids@);
}

impl PersistedAuthorityDocument {
    /// Recomputes the checkpoint commitment.
    #[verifier::spinoff_prover]
    pub fn calculate_digest(&self) -> (d: [u8; 32])
        ensures
            d@ == checkpoint_digest_spec(*self),
    {
        let mut m: Vec<u8> = Vec::new();
        push_text(&mut m, CHECKPOINT_DIGEST_DOMAIN);
        push_u16(&mut m, self.schema_version);
        push_text(&mut m, self.cluster_id.as_str());
        push_text(&mut m, self.node_name.as_str());
        push_text(&mut m, self.node_uid.as_str());
        push_u64(&mut m, self.key_revision.0);
        push_u64(&mut m, self.next_epoch);
        push_u64(&mut m, self.retired_through_epoch);
        push_u64(&mut m, self.revoked_through_epoch);
        push_u64(&mut m, self.epochs.len() as u64);
        let ghost start = m@;
        let mut i: usize = 0;
        while i < self.epochs.len()
            invariant
                i <= self.epochs@.len(),
                m@ == start + persisted_epochs_concat(self.epochs@.take(i as int)),
            decreases self.epochs@.len() - i,
        {
            push_persisted_epoch(&mut m, &self.epochs[i]);
            proof {
                assert(self.epochs@.take(i + 1).drop_last() =~= self.epochs@.take(i as int));
                assert(m@ =~= start + persisted_epochs_concat(self.epochs@.take(i + 1)));
            }
            i = i + 1;
        }
        assert(self.epochs@.take(i as int) =~= self.epochs@);
        assert(m@ =~= text_bytes(CHECKPOINT_DIGEST_DOMAIN@) + document_material(*self));
        sha256(&m)
    }

    /// The checkpoint of `authority`.
    pub fn from_authority(authority: &NodeKeyAuthority) -> (d: Self)
        ensures
            document_of(d, *authority),
            d.checkpoint_digest@ == checkpoint_digest_spec(d),
    {
        let mut epochs: Vec<PersistedLocalKeyEpoch> = Vec::new();
        let mut i: usize = 0;
        while i < authority.epochs.len()
            invariant
                i <= authority.epochs@.len(),
                epochs@.len() == i,
                forall|j: int| 0 <= j < i ==> persisted_of(#[trigger] epochs@[j], authority.epochs@[j]),
            decreases authority.epochs@.len() - i,
        {
            let e = &authority.epochs[i];
            let readiness = match &e.readiness {
                Some(c) => Some(c.duplicate()),
                None => None,
            };
            epochs.push(
                PersistedLocalKeyEpoch {
                    epoch: e.epoch,
                    public_key: e.public_key,
                    private_key: *e.private_key.expose_for_kernel(),
                    valid_from_unix_ms: e.valid_from_unix_ms,
                    valid_until_unix_ms: e.valid_until_unix_ms,
                    phase: e.phase,
                    barrier: e.barrier.duplicate(),
                    acknowledgements: copy_acks(&e.acknowledgements),
                    readiness,
                    drain_deadline_unix_ms: e.drain_deadline_unix_ms,
                },
            );
            i = i + 1;
        }
        let mut document = PersistedAuthorityDocument {
            schema_version: authority.schema_version,
            cluster_id: authority.cluster_id.clone(),
            node_name: authority.node_name.clone(),
            node_uid: authority.node_uid.clone(),
            key_revision: authority.key_revision,
            next_epoch: authority.next_epoch,
            retired_through_epoch: authority.retired_through_epoch,
            revoked_through_epoch: authority.revoked_through_epoch,
            epochs,
            checkpoint_digest: [0u8; 32],
        };
        let digest = document.calculate_digest();
        document.checkpoint_digest = digest;
        document
    }

    /// Restores the authority of the expected Node from a checkpoint that
    /// passes its digest and every consistency check.
    #[verifier::spinoff_prover]
    #[verifier::rlimit(60)]
    pub fn into_authority(
        self,
        expected_cluster_id: &str,
        expected_node_name: &str,
        expected_node_uid: &str,
    ) -> (r: Result<NodeKeyAuthority, KeyAuthorityError>)
        ensures
            self.schema_version != NODE_KEY_AUTHORITY_SCHEMA_VERSION ==> r == Err::<
                NodeKeyAuthority,
                KeyAuthorityError,
            >(KeyAuthorityError::UnsupportedSchema(self.schema_version)),
            self.schema_version == NODE_KEY_AUTHORITY_SCHEMA_VERSION && self.checkpoint_digest@
                != checkpoint_digest_spec(self) ==> r == Err::<NodeKeyAuthority, KeyAuthorityError>(
                KeyAuthorityError::CheckpointDigestMismatch,
            ),
            self.schema_version == NODE_KEY_AUTHORITY_SCHEMA_VERSION && self.checkpoint_digest@
                == checkpoint_digest_spec(self) && !(self.cluster_id@ == expected_cluster_id@
                && self.node_name@ == expected_node_name@ && self.node_uid@ == expected_node_uid@) ==> r
                == Err::<NodeKeyAuthority, KeyAuthorityError>(KeyAuthorityError::NodeReplacementRequiresFence),
            r matches Ok(a) ==> checkpoint_front_ok(self, expected_cluster_id@, expected_node_name@, expected_node_uid@)
                && document_of(self, a) && authority_ok(a),
            checkpoint_front_ok(self, expected_cluster_id@, expected_node_name@, expected_node_uid@) && (forall|
                a: NodeKeyAuthority,
            | #[trigger] document_of(self, a) ==> authority_ok(a)) ==> r is Ok,
            checkpoint_front_ok(self, expected_cluster_id@, expected_node_name@, expected_node_uid@) && (exists|j: int|
                0 <= j < self.epochs@.len() && all_zero((#[trigger] self.epochs@[j]).private_key@)) ==> r == Err::<
                NodeKeyAuthority,
                KeyAuthorityError,
            >(KeyAuthorityError::InvalidPrivateKey),
            checkpoint_front_ok(self, expected_cluster_id@, expected_node_name@, expected_node_uid@) && identity_ok(
                self.cluster_id@,
                self.node_name@,
                self.node_uid@,
            ) && (forall|j: int| 0 <= j < self.epochs@.len() ==> !all_zero((#[trigger] self.epochs@[j]).private_key@))
                && r is Err ==> (r == Err::<NodeKeyAuthority, KeyAuthorityError>(KeyAuthorityError::InvalidDurableState)
                || r == Err::<NodeKeyAuthority, KeyAuthorityError>(KeyAuthorityError::InvalidLifetime)
                || r->Err_0 is InvalidBarrier || r->Err_0 is BarrierDigestMismatch),
    {
        if self.schema_version != NODE_KEY_AUTHORITY_SCHEMA_VERSION {
            return Err(KeyAuthorityError::UnsupportedSchema(self.schema_version));
        }
        let expected = self.calculate_digest();
        if !bytes32_eq(&self.checkpoint_digest, &expected) {
            return Err(KeyAuthorityError::CheckpointDigestMismatch);
        }
        if !text_eq(self.cluster_id.as_str(), expected_cluster_id) || !text_eq(
            self.node_name.as_str(),
            expected_node_name,
        ) || !text_eq(self.node_uid.as_str(), expected_node_uid) {
            return Err(KeyAuthorityError::NodeReplacementRequiresFence);
        }
        let ghost doc = self;
        let PersistedAuthorityDocument {
            schema_version,
            cluster_id,
            node_name,
            node_uid,
            key_revision,
            next_epoch,
            retired_through_epoch,
            revoked_through_epoch,
            epochs: persisted,
            checkpoint_digest: _,
        } = self;
        let epochs = match restore_epochs(&persisted) {
            Ok(v) => v,
            Err(e) => {
                return Err(e);
            },
        };
        let authority = NodeKeyAuthority {
            schema_version,
            cluster_id,
            node_name,
            node_uid,
            key_revision,
            next_epoch,
            retired_through_epoch,
            revoked_through_epoch,
            epochs,
        };
        proof {
            assert(document_of(doc, authority));
        }
        match authority.validate() {
            Ok(()) => {},
            Err(e) => {
                return Err(e);
            },
        }
        Ok(authority)
    }
}

proof fn lemma_document_copy(a: NodeKeyAuthority, d: PersistedAuthorityDocument, b: NodeKeyAuthority)
    requires
        document_of(d, a),
        document_of(d, b),
    ensures
        authority_copy(b, a),
{
    assert forall|i: int| 0 <= i < b.epochs@.len() implies epoch_copy(#[trigger] b.epochs@[i], a.epochs@[i]) by {
        lemma_persisted_same(d.epochs@[i], b.epochs@[i], a.epochs@[i]);
    }
}

proof fn lemma_document_secrets(a: NodeKeyAuthority, d: PersistedAuthorityDocument)
    requires
        authority_ok(a),
        document_of(d, a),
    ensures
        forall|i: int| 0 <= i < d.epochs@.len() ==> !all_zero((#[trigger] d.epochs@[i]).private_key@),
{
    assert forall|i: int| 0 <= i < d.epochs@.len() implies !all_zero((#[trigger] d.epochs@[i]).private_key@) by {
        assert(persisted_of(d.epochs@[i], a.epochs@[i]));
        assert(epoch_ok(a.node_uid@, a.epochs@[i]));
        assert(a.epochs@[i].private_key.wf());
    }
}

/// A checkpoint restores the authority it was taken of: the restored
/// authority is a field-by-field copy, and consistent.
pub proof fn lemma_checkpoint_round_trip(a: NodeKeyAuthority, d: PersistedAuthorityDocument, b: NodeKeyAuthority)
    requires
        authority_ok(a),
        document_of(d, a),
        d.checkpoint_digest@ == checkpoint_digest_spec(d),
        document_of(d, b),
    ensures
        authority_copy(b, a),
        authority_ok(b),
        checkpoint_front_ok(d, a.cluster_id_spec(), a.node_name_spec(), a.node_uid_spec()),
{
    lemma_document_copy(a, d, b);
    lemma_authority_copy_ok(b, a);
    lemma_document_secrets(a, d);
}

} // verus!

verus! {

/// What preparing an epoch changes, read through the public accessors: one
/// new last epoch numbered `epoch`, with the requested lifetime end, the
/// public key of its own secret, and a barrier for `topology_revision`;
/// the key revision and the epoch counter advance by one.
pub proof fn lemma_prepared_successor_facts(
    old: NodeKeyAuthority,
    new: NodeKeyAuthority,
    epoch: u64,
    topology_revision: Revision,
    peers: Seq<String>,
    from: u64,
    until: u64,
)
    requires
        prepared_successor(old, new, epoch, topology_revision, peers, from, until),
    ensures
        epoch == old.next_epoch_spec(),
        new.next_epoch_spec() == old.next_epoch_spec() + 1,
        new.key_revision_spec() == old.key_revision_spec() + 1,
        new.cluster_id_spec() == old.cluster_id_spec(),
        new.node_name_spec() == old.node_name_spec(),
        new.node_uid_spec() == old.node_uid_spec(),
        new.epochs_spec().len() == old.epochs_spec().len() + 1,
        new.epochs_spec().drop_last() == old.epochs_spec(),
        new.epochs_spec().last().epoch_spec() == epoch,
        new.epochs_spec().last().valid_until_spec() == until,
        new.epochs_spec().last().public_key_spec() == x25519_public_spec(new.epochs_spec().last().secret_spec()),
        new.epochs_spec().last().barrier_spec().topology_revision == topology_revision,
        new.epochs_spec().last().drain_deadline_spec() is None,
        new.epochs_spec().last().phase_spec() == KeyEpochPhase::Prepared || new.epochs_spec().last().phase_spec()
            == KeyEpochPhase::MutuallyAttested,
{
}

/// What recording an acknowledgement changes: the key revision advances by
/// one, the epochs keep their numbers and keys, and only the acknowledged
/// epoch may move from prepared to mutually attested.
pub proof fn lemma_acknowledged_successor_facts(
    old: NodeKeyAuthority,
    new: NodeKeyAuthority,
    k: PeerEpochAcknowledgement,
)
    requires
        acknowledged_successor(old, new, k),
    ensures
        new.key_revision_spec() == old.key_revision_spec() + 1,
        new.next_epoch_spec() == old.next_epoch_spec(),
        new.node_uid_spec() == old.node_uid_spec(),
        new.epochs_spec().len() == old.epochs_spec().len(),
        forall|j: int|
            0 <= j < old.epochs_spec().len() ==> (#[trigger] new.epochs_spec()[j]).epoch_spec()
                == old.epochs_spec()[j].epoch_spec() && new.epochs_spec()[j].public_key_spec()
                == old.epochs_spec()[j].public_key_spec(),
        forall|j: int|
            0 <= j < old.epochs_spec().len() && (#[trigger] old.epochs_spec()[j]).epoch_spec() != k.epoch
                ==> new.epochs_spec()[j] == old.epochs_spec()[j],
{
    let i = epoch_position(old, k.epoch)->0;
    assert forall|j: int|
        0 <= j < old.epochs_spec().len() && (#[trigger] old.epochs_spec()[j]).epoch_spec() != k.epoch implies new.epochs_spec()[j]
            == old.epochs_spec()[j] by {
        if j == i {
            assert(old.epochs@[i].epoch == k.epoch);
        }
    }
}

/// What activating an epoch changes: the target becomes active, the
/// previously active epoch drains until `deadline` clipped to its own
/// expiry, every other epoch is unchanged, and the key revision advances by
/// one.
pub proof fn lemma_activated_successor_facts(old: NodeKeyAuthority, new: NodeKeyAuthority, epoch: u64, deadline: u64)
    requires
        activated_successor(old, new, epoch, deadline),
    ensures
        new.key_revision_spec() == old.key_revision_spec() + 1,
        new.next_epoch_spec() == old.next_epoch_spec(),
        new.node_uid_spec() == old.node_uid_spec(),
        new.epochs_spec().len() == old.epochs_spec().len(),
        forall|j: int|
            0 <= j < old.epochs_spec().len() ==> {
                let o = #[trigger] old.epochs_spec()[j];
                let e = new.epochs_spec()[j];
                &&& e.epoch_spec() == o.epoch_spec()
                &&& e.public_key_spec() == o.public_key_spec()
                &&& o.epoch_spec() == epoch ==> e.phase_spec() == KeyEpochPhase::Active
                &&& o.epoch_spec() != epoch && o.phase_spec() == KeyEpochPhase::Active ==> e.phase_spec()
                    == KeyEpochPhase::Draining && e.drain_deadline_spec() == Some(
                    if deadline < o.valid_until_spec() {
                        deadline
                    } else {
                        o.valid_until_spec()
                    },
                )
                &&& o.epoch_spec() != epoch && o.phase_spec() != KeyEpochPhase::Active ==> e == o
            },
{
    assert forall|j: int| 0 <= j < old.epochs_spec().len() implies #[trigger] new.epochs_spec()[j] == activated_epoch(
        old.epochs@[j],
        epoch,
        deadline,
    ) by {}
}

/// What retiring a drained epoch changes: exactly that epoch leaves the
/// list, the retired watermark rises to it, and the key revision advances by
/// one.
pub proof fn lemma_retired_successor_facts(old: NodeKeyAuthority, new: NodeKeyAuthority, epoch: u64)
    requires
        retired_successor(old, new, epoch),
    ensures
        new.key_revision_spec() == old.key_revision_spec() + 1,
        new.retired_through_spec() == (if old.retired_through_spec() < epoch {
            epoch
        } else {
            old.retired_through_spec()
        }),
        exists|i: int|
            0 <= i < old.epochs_spec().len() && (#[trigger] old.epochs_spec()[i]).epoch_spec() == epoch
                && new.epochs_spec() == old.epochs_spec().remove(i),
{
    let i = epoch_position(old, epoch)->0;
    assert(old.epochs_spec()[i].epoch_spec() == epoch);
}

/// What revoking through `epoch` changes: exactly the epochs numbered above
/// it remain, in order, the revoked watermark rises to it, and the key
/// revision advances by one.
pub proof fn lemma_revoked_successor_facts(old: NodeKeyAuthority, new: NodeKeyAuthority, epoch: u64)
    requires
        revoked_successor(old, new, epoch),
    ensures
        new.key_revision_spec() == old.key_revision_spec() + 1,
        new.revoked_through_spec() == (if old.revoked_through_spec() < epoch {
            epoch
        } else {
            old.revoked_through_spec()
        }),
        exists|c: int|
            #![trigger old.epochs_spec().skip(c)]
            0 <= c <= old.epochs_spec().len() && new.epochs_spec() == old.epochs_spec().skip(c) && (forall|j: int|
                0 <= j < c ==> (#[trigger] old.epochs_spec()[j]).epoch_spec() <= epoch) && (forall|j: int|
                c <= j < old.epochs_spec().len() ==> (#[trigger] old.epochs_spec()[j]).epoch_spec() > epoch),
{
    let c = choose|c: int|
        0 <= c <= old.epochs@.len() && new.epochs@ == old.epochs@.skip(c) && (forall|j: int|
            0 <= j < c ==> (#[trigger] old.epochs@[j]).epoch <= epoch) && (forall|j: int|
            c <= j < old.epochs@.len() ==> (#[trigger] old.epochs@[j]).epoch > epoch);
    assert(forall|j: int| 0 <= j < c ==> (#[trigger] old.epochs_spec()[j]).epoch_spec() <= epoch);
    assert(forall|j: int| c <= j < old.epochs_spec().len() ==> (#[trigger] old.epochs_spec()[j]).epoch_spec() > epoch);
    assert(new.epochs_spec() == old.epochs_spec().skip(c));
}

} // verus!
