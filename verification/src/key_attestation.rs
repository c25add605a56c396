//! Fleet-synchronous mutual acknowledgement of Node-local key epochs.
//!
//! A transparency cut is frozen into one immutable proposal round. Each
//! authenticated Node contributes exactly one row of the reciprocal witness
//! matrix. No Node receives an activation-capable acknowledgement column
//! until the complete N×(N-1) matrix exists.

use vstd::prelude::*;
use crate::digest::{
    bytes32_eq, push_raw32, push_text, push_u16, push_u64, raw_bytes, sha256, sha256_spec,
    text_bytes, u16_bytes, u64_bytes,
};
use crate::ids::Revision;
use crate::key_authority::{
    ack_equal, ack_same, acks_bytes, push_acks, AuthenticatedNodeIdentity,
    CausalEpochBarrierDigest, KeyEpochPhase, NodeKeyPublication, PeerEpochAcknowledgement,
};
use crate::key_transparency::{
    cut_ok, push_recipients, recipient_bytes, recipients_bytes, NodeKeyTransparencyCut,
    NodeKeyTransparencyCutDigest, NodeKeyTransparencyError,
};
use crate::recipients::{
    pair_lt, recipient_eq, recipient_lt, recipient_view, recipients_view,
    EncryptionGenerationRecipient,
};
use crate::text::text_eq;

verus! {

pub const NODE_KEY_ATTESTATION_SCHEMA_VERSION: u16 = 1;
pub const ROUND_DIGEST_DOMAIN: &'static str = "unf.node-key-attestation-round.v1";
pub const ROW_DIGEST_DOMAIN: &'static str = "unf.node-key-attestation-row.v1";
pub const CUT_DIGEST_DOMAIN: &'static str = "unf.node-key-attestation-cut.v1";

#[derive(Clone, Copy, Debug)]
pub struct NodeKeyAttestationRoundDigest(pub [u8; 32]);

#[derive(Clone, Copy, Debug)]
pub struct NodeKeyAttestationRowDigest(pub [u8; 32]);

#[derive(Clone, Copy, Debug)]
pub struct NodeKeyAttestationCutDigest(pub [u8; 32]);

#[derive(Clone, Debug)]
pub struct NodeKeyAttestationProposal {
    pub recipient: EncryptionGenerationRecipient,
    pub epoch: u64,
    pub barrier_digest: CausalEpochBarrierDigest,
    pub valid_from_unix_ms: u64,
    pub valid_until_unix_ms: u64,
}

/// Immutable public-key proposal cut used by every participant in one round.
#[derive(Clone, Debug)]
pub struct NodeKeyAttestationRound {
    pub schema_version: u16,
    pub cluster_id: String,
    pub membership_revision: Revision,
    pub members: Vec<EncryptionGenerationRecipient>,
    pub proposals: Vec<NodeKeyAttestationProposal>,
    pub source_transparency_cut_digest: NodeKeyTransparencyCutDigest,
    pub issued_at_unix_ms: u64,
    pub round_digest: NodeKeyAttestationRoundDigest,
}

/// One authenticated Node's exact acknowledgement of every other proposal.
#[derive(Clone, Debug)]
pub struct NodeKeyAttestationRow {
    pub schema_version: u16,
    pub round_digest: NodeKeyAttestationRoundDigest,
    pub peer: EncryptionGenerationRecipient,
    pub acknowledgements: Vec<PeerEpochAcknowledgement>,
    pub row_digest: NodeKeyAttestationRowDigest,
}

/// Complete, independently replayable acknowledgement column for one Node.
#[derive(Clone, Debug)]
pub struct NodeKeyAttestationCut {
    pub schema_version: u16,
    pub round: NodeKeyAttestationRound,
    pub recipient: EncryptionGenerationRecipient,
    pub acknowledgements: Vec<PeerEpochAcknowledgement>,
    pub cut_digest: NodeKeyAttestationCutDigest,
}

#[derive(Clone, Copy, Debug, PartialEq, Eq, Structural)]
pub enum NodeKeyAttestationOutcome {
    Accepted,
    Idempotent,
}

#[derive(Debug)]
pub enum NodeKeyAttestationError {
    InvalidTransparencyCut(NodeKeyTransparencyError),
    AmbiguousProposal,
    InvalidRound,
    MembershipRegression,
    MembershipEquivocation,
    ProposalRegression,
    Uninitialized,
    ForeignPeer,
    InvalidRow,
    UnauthenticatedOrExpiredRow,
    RowMutation,
    InvalidCut,
    Encoding(String),
}

pub open spec fn proposal_bytes(p: NodeKeyAttestationProposal) -> Seq<u8> {
    recipient_bytes(p.recipient) + u64_bytes(p.epoch) + raw_bytes(p.barrier_digest.0@) + u64_bytes(
        p.valid_from_unix_ms,
    ) + u64_bytes(p.valid_until_unix_ms)
}

pub open spec fn proposals_concat(v: Seq<NodeKeyAttestationProposal>) -> Seq<u8>
    decreases v.len(),
{
    if v.len() == 0 {
        Seq::empty()
    } else {
        proposals_concat(v.drop_last()) + proposal_bytes(v.last())
    }
}

pub open spec fn round_material(r: NodeKeyAttestationRound) -> Seq<u8> {
    u16_bytes(r.schema_version) + text_bytes(r.cluster_id@) + u64_bytes(r.membership_revision.0)
        + recipients_bytes(r.members@) + u64_bytes(r.proposals@.len() as u64) + proposals_concat(
        r.proposals@,
    ) + raw_bytes(r.source_transparency_cut_digest.0@) + u64_bytes(r.issued_at_unix_ms)
}

pub open spec fn round_digest_spec(r: NodeKeyAttestationRound) -> Seq<u8> {
    sha256_spec(text_bytes(ROUND_DIGEST_DOMAIN@) + round_material(r))
}

/// A round with its digest, as committed inside a cut.
pub open spec fn round_bytes(r: NodeKeyAttestationRound) -> Seq<u8> {
    round_material(r) + raw_bytes(r.round_digest.0@)
}

pub open spec fn row_material(w: NodeKeyAttestationRow) -> Seq<u8> {
    u16_bytes(w.schema_version) + raw_bytes(w.round_digest.0@) + recipient_bytes(w.peer)
        + acks_bytes(w.acknowledgements@)
}

pub open spec fn row_digest_spec(w: NodeKeyAttestationRow) -> Seq<u8> {
    sha256_spec(text_bytes(ROW_DIGEST_DOMAIN@) + row_material(w))
}

pub open spec fn cut_material(c: NodeKeyAttestationCut) -> Seq<u8> {
    u16_bytes(c.schema_version) + round_bytes(c.round) + recipient_bytes(c.recipient) + acks_bytes(
        c.acknowledgements@,
    )
}

pub open spec fn attestation_cut_digest_spec(c: NodeKeyAttestationCut) -> Seq<u8> {
    sha256_spec(text_bytes(CUT_DIGEST_DOMAIN@) + cut_material(c))
}

/// What `NodeKeyAttestationRound::verify` accepts.
pub open spec fn round_ok(r: NodeKeyAttestationRound) -> bool {
    let ms = r.members@;
    let ps = r.proposals@;
    &&& r.schema_version == NODE_KEY_ATTESTATION_SCHEMA_VERSION
    &&& r.cluster_id@.len() > 0
    &&& r.membership_revision.0 != 0
    &&& ms.len() > 0
    &&& ps.len() == ms.len()
    &&& r.issued_at_unix_ms != 0
    &&& forall|a: int, b: int|
        0 <= a < b < ms.len() ==> pair_lt(recipient_view(#[trigger] ms[a]), recipient_view(#[trigger] ms[b]))
    &&& forall|i: int|
        0 <= i < ps.len() ==> {
            &&& recipient_view((#[trigger] ps[i]).recipient) == recipient_view(ms[i])
            &&& ps[i].epoch != 0
            &&& ps[i].valid_from_unix_ms <= r.issued_at_unix_ms
            &&& r.issued_at_unix_ms < ps[i].valid_until_unix_ms
        }
    &&& r.round_digest.0@ == round_digest_spec(r)
}

fn push_proposal(out: &mut Vec<u8>, p: &NodeKeyAttestationProposal)
    ensures
        final(out)@ == old(out)@ + proposal_bytes(*p),
{
    let ghost start = out@;
    push_text(out, p.recipient.node_name.as_str());
    push_text(out, p.recipient.node_uid.as_str());
    push_u64(out, p.epoch);
    push_raw32(out, &p.barrier_digest.0);
    push_u64(out, p.valid_from_unix_ms);
    push_u64(out, p.valid_until_unix_ms);
    assert(out@ =~= start + proposal_bytes(*p));
}

fn push_round_material(out: &mut Vec<u8>, r: &NodeKeyAttestationRound)
    ensures
        final(out)@ == old(out)@ + round_material(*r),
{
    let ghost start0 = out@;
    push_u16(out, r.schema_version);
    push_text(out, r.cluster_id.as_str());
    push_u64(out, r.membership_revision.0);
    push_recipients(out, &r.members);
    push_u64(out, r.proposals.len() as u64);
    let ghost start = out@;
    let mut i: usize = 0;
    while i < r.proposals.len()
        invariant
            i <= r.proposals@.len(),
            out@ == start + proposals_concat(r.proposals@.take(i as int)),
        decreases r.proposals@.len() - i,
    {
        push_proposal(out, &r.proposals[i]);
        assert(r.proposals@.take(i + 1).drop_last() =~= r.proposals@.take(i as int));
        i = i + 1;
    }
    assert(r.proposals@.take(i as int) =~= r.proposals@);
    push_raw32(out, &r.source_transparency_cut_digest.0);
    push_u64(out, r.issued_at_unix_ms);
    assert(out@ =~= start0 + round_material(*r));
}

impl NodeKeyAttestationRound {
    pub fn calculate_digest(&self) -> (d: NodeKeyAttestationRoundDigest)
        ensures
            d.0@ == round_digest_spec(*self),
    {
        let mut m: Vec<u8> = Vec::new();
        push_text(&mut m, ROUND_DIGEST_DOMAIN);
        push_round_material(&mut m, self);
        assert(m@ =~= text_bytes(ROUND_DIGEST_DOMAIN@) + round_material(*self));
        NodeKeyAttestationRoundDigest(sha256(&m))
    }

    /// Replays canonical membership, proposal coverage, lifetime, and digest.
    pub fn verify(&self) -> (r: Result<(), NodeKeyAttestationError>)
        ensures
            r is Ok <==> round_ok(*self),
            r is Err ==> r->Err_0 is InvalidRound,
    {
        let n = self.members.len();
        if self.schema_version != NODE_KEY_ATTESTATION_SCHEMA_VERSION || self.cluster_id.as_str().is_empty()
            || self.membership_revision.0 == 0 || n == 0 || self.proposals.len() != n
            || self.issued_at_unix_ms == 0 {
            return Err(NodeKeyAttestationError::InvalidRound);
        }
        let mut i: usize = 0;
        while i < n
            invariant
                n == self.members@.len(),
                n == self.proposals@.len(),
                i <= n,
                forall|a: int, b: int|
                    0 <= a < b < n && b < i ==> pair_lt(
                        recipient_view(#[trigger] self.members@[a]),
                        recipient_view(#[trigger] self.members@[b]),
                    ),
                forall|q: int|
                    0 <= q < i ==> {
                        &&& recipient_view((#[trigger] self.proposals@[q]).recipient) == recipient_view(self.members@[q])
                        &&& self.proposals@[q].epoch != 0
                        &&& self.proposals@[q].valid_from_unix_ms <= self.issued_at_unix_ms
                        &&& self.issued_at_unix_ms < self.proposals@[q].valid_until_unix_ms
                    },
            decreases n - i,
        {
            if i > 0 && !recipient_lt(&self.members[i - 1], &self.members[i]) {
                return Err(NodeKeyAttestationError::InvalidRound);
            }
            let p = &self.proposals[i];
            if !recipient_eq(&self.members[i], &p.recipient) || p.epoch == 0 || p.valid_from_unix_ms
                > self.issued_at_unix_ms || p.valid_until_unix_ms <= self.issued_at_unix_ms {
                return Err(NodeKeyAttestationError::InvalidRound);
            }
            proof {
                let ms = self.members@;
                assert forall|a: int, b: int| 0 <= a < b < n && b < i + 1 implies pair_lt(
                    recipient_view(#[trigger] ms[a]),
                    recipient_view(#[trigger] ms[b]),
                ) by {
                    if b == i && a < i - 1 {
                        crate::recipients::lemma_pair_lt_transitive(
                            recipient_view(ms[a]),
                            recipient_view(ms[i - 1]),
                            recipient_view(ms[b]),
                        );
                    }
                }
            }
            i = i + 1;
        }
        let expected = self.calculate_digest();
        if !bytes32_eq(&self.round_digest.0, &expected.0) {
            return Err(NodeKeyAttestationError::InvalidRound);
        }
        Ok(())
    }
}

} // verus!

verus! {

/// The proposal index of the `k`-th acknowledgement in the row of the member
/// at `p`: every proposal but the member's own, in order.
pub open spec fn skip_index(k: int, p: int) -> int {
    if k < p {
        k
    } else {
        k + 1
    }
}

/// The acknowledgement that the member at `p` owes the `k`-th other proposal.
pub open spec fn row_ack_expected(
    r: NodeKeyAttestationRound,
    peer: EncryptionGenerationRecipient,
    p: int,
    k: int,
    a: PeerEpochAcknowledgement,
) -> bool {
    let t = r.proposals@[skip_index(k, p)];
    &&& a.peer_node_uid@ == peer.node_uid@
    &&& a.target_node_uid@ == t.recipient.node_uid@
    &&& a.epoch == t.epoch
    &&& a.barrier_digest.0@ == t.barrier_digest.0@
    &&& a.peer_public_epoch == r.proposals@[p].epoch
    &&& a.observed_at_unix_ms == r.issued_at_unix_ms
}

/// The member at `p` of the round is `x`.
pub open spec fn member_at(r: NodeKeyAttestationRound, p: int, x: (Seq<char>, Seq<char>)) -> bool {
    0 <= p < r.members@.len() && recipient_view(r.members@[p]) == x
}

/// The row's content for member `p`: it belongs to the round and holds
/// exactly the acknowledgements owed, in proposal order.
pub open spec fn row_content_ok(w: NodeKeyAttestationRow, r: NodeKeyAttestationRound, p: int) -> bool {
    &&& w.schema_version == NODE_KEY_ATTESTATION_SCHEMA_VERSION
    &&& w.round_digest.0@ == r.round_digest.0@
    &&& w.acknowledgements@.len() + 1 == r.proposals@.len()
    &&& forall|k: int|
        0 <= k < w.acknowledgements@.len() ==> row_ack_expected(
            r,
            w.peer,
            p,
            k,
            #[trigger] w.acknowledgements@[k],
        )
}

/// What `NodeKeyAttestationRow::verify` accepts against `r`.
pub open spec fn row_ok(w: NodeKeyAttestationRow, r: NodeKeyAttestationRound) -> bool {
    &&& round_ok(r)
    &&& exists|p: int| member_at(r, p, recipient_view(w.peer)) && row_content_ok(w, r, p)
    &&& w.row_digest.0@ == row_digest_spec(w)
}

pub open spec fn is_member(r: NodeKeyAttestationRound, x: (Seq<char>, Seq<char>)) -> bool {
    recipients_view(r.members@).contains(x)
}

proof fn lemma_member_unique(r: NodeKeyAttestationRound, p: int, q: int, x: (Seq<char>, Seq<char>))
    requires
        round_ok(r),
        member_at(r, p, x),
        member_at(r, q, x),
    ensures
        p == q,
{
    if p < q {
        crate::recipients::lemma_pair_lt_asymmetric(recipient_view(r.members@[p]), recipient_view(r.members@[q]));
    } else if q < p {
        crate::recipients::lemma_pair_lt_asymmetric(recipient_view(r.members@[q]), recipient_view(r.members@[p]));
    }
}

/// The index of member `x`.
fn member_index_of(r: &NodeKeyAttestationRound, x: &EncryptionGenerationRecipient) -> (p: Option<usize>)
    requires
        round_ok(*r),
    ensures
        match p {
            Some(i) => member_at(*r, i as int, recipient_view(*x)),
            None => !is_member(*r, recipient_view(*x)) && forall|i: int| !member_at(*r, i, recipient_view(*x)),
        },
{
    let found = crate::recipients::contains_recipient(&r.members, x);
    proof {
        if found is None {
            assert forall|i: int| !member_at(*r, i, recipient_view(*x)) by {
                if member_at(*r, i, recipient_view(*x)) {
                    assert(recipients_view(r.members@)[i] == recipient_view(r.members@[i]));
                }
            }
        }
    }
    found
}

pub fn push_recipient(out: &mut Vec<u8>, x: &EncryptionGenerationRecipient)
    ensures
        final(out)@ == old(out)@ + recipient_bytes(*x),
{
    let ghost start = out@;
    push_text(out, x.node_name.as_str());
    push_text(out, x.node_uid.as_str());
    assert(out@ =~= start + recipient_bytes(*x));
}

impl NodeKeyAttestationRow {
    pub fn calculate_digest(&self) -> (d: NodeKeyAttestationRowDigest)
        ensures
            d.0@ == row_digest_spec(*self),
    {
        let mut m: Vec<u8> = Vec::new();
        push_text(&mut m, ROW_DIGEST_DOMAIN);
        push_u16(&mut m, self.schema_version);
        push_raw32(&mut m, &self.round_digest.0);
        push_recipient(&mut m, &self.peer);
        push_acks(&mut m, &self.acknowledgements);
        assert(m@ =~= text_bytes(ROW_DIGEST_DOMAIN@) + row_material(*self));
        NodeKeyAttestationRowDigest(sha256(&m))
    }

    fn content_matches(&self, round: &NodeKeyAttestationRound, p: usize) -> (r: bool)
        requires
            round_ok(*round),
            p < round.members@.len(),
        ensures
            r == row_content_ok(*self, *round, p as int),
    {
        let n = round.proposals.len();
        if self.schema_version != NODE_KEY_ATTESTATION_SCHEMA_VERSION || !bytes32_eq(
            &self.round_digest.0,
            &round.round_digest.0,
        ) || n == 0 || self.acknowledgements.len() != n - 1 {
            return false;
        }
        let origin_epoch = round.proposals[p].epoch;
        let mut k: usize = 0;
        while k < self.acknowledgements.len()
            invariant
                round_ok(*round),
                p < n,
                n == round.proposals@.len(),
                self.acknowledgements@.len() + 1 == n,
                origin_epoch == round.proposals@[p as int].epoch,
                k <= self.acknowledgements@.len(),
                forall|j: int|
                    0 <= j < k ==> row_ack_expected(
                        *round,
                        self.peer,
                        p as int,
                        j,
                        #[trigger] self.acknowledgements@[j],
                    ),
            decreases self.acknowledgements@.len() - k,
        {
            let t_index = if k < p {
                k
            } else {
                k + 1
            };
            let a = &self.acknowledgements[k];
            let t = &round.proposals[t_index];
            if !text_eq(a.peer_node_uid.as_str(), self.peer.node_uid.as_str()) || !text_eq(
                a.target_node_uid.as_str(),
                t.recipient.node_uid.as_str(),
            ) || a.epoch != t.epoch || !bytes32_eq(&a.barrier_digest.0, &t.barrier_digest.0)
                || a.peer_public_epoch != origin_epoch || a.observed_at_unix_ms
                != round.issued_at_unix_ms {
                return false;
            }
            k = k + 1;
        }
        true
    }

    /// Replays exact target coverage and every acknowledgement field.
    pub fn verify(&self, round: &NodeKeyAttestationRound) -> (r: Result<(), NodeKeyAttestationError>)
        ensures
            r is Ok <==> row_ok(*self, *round),
            !round_ok(*round) ==> (r is Err && r->Err_0 is InvalidRound),
            round_ok(*round) && !is_member(*round, recipient_view(self.peer)) ==> (r is Err
                && r->Err_0 is ForeignPeer),
            round_ok(*round) && is_member(*round, recipient_view(self.peer)) && !row_ok(*self, *round)
                ==> (r is Err && r->Err_0 is InvalidRow),
    {
        round.verify()?;
        let p = match member_index_of(round, &self.peer) {
            Some(p) => p,
            None => {
                return Err(NodeKeyAttestationError::ForeignPeer);
            },
        };
        proof {
            assert(recipients_view(round.members@)[p as int] == recipient_view(round.members@[p as int]));
            if row_ok(*self, *round) {
                let q = choose|q: int|
                    member_at(*round, q, recipient_view(self.peer)) && row_content_ok(*self, *round, q);
                lemma_member_unique(*round, p as int, q, recipient_view(self.peer));
            }
        }
        if !self.content_matches(round, p) {
            return Err(NodeKeyAttestationError::InvalidRow);
        }
        let expected = self.calculate_digest();
        if !bytes32_eq(&self.row_digest.0, &expected.0) {
            return Err(NodeKeyAttestationError::InvalidRow);
        }
        Ok(())
    }
}

impl NodeKeyAttestationRound {
    /// Deterministically emits the caller's complete matrix row; the round's
    /// issuance time makes retry and restart byte-identical.
    pub fn row_for(&self, peer: &EncryptionGenerationRecipient) -> (r: Result<
        NodeKeyAttestationRow,
        NodeKeyAttestationError,
    >)
        ensures
            r is Ok <==> round_ok(*self) && is_member(*self, recipient_view(*peer)),
            !round_ok(*self) ==> (r is Err && r->Err_0 is InvalidRound),
            round_ok(*self) && !is_member(*self, recipient_view(*peer)) ==> (r is Err
                && r->Err_0 is ForeignPeer),
            r matches Ok(w) ==> row_ok(w, *self) && w.peer == *peer,
    {
        self.verify()?;
        let p = match member_index_of(self, peer) {
            Some(p) => p,
            None => {
                return Err(NodeKeyAttestationError::ForeignPeer);
            },
        };
        proof {
            assert(recipients_view(self.members@)[p as int] == recipient_view(self.members@[p as int]));
        }
        let origin_epoch = self.proposals[p].epoch;
        let n = self.proposals.len();
        let mut acknowledgements: Vec<PeerEpochAcknowledgement> = Vec::new();
        let mut i: usize = 0;
        while i < n
            invariant
                round_ok(*self),
                n == self.proposals@.len(),
                p < n,
                origin_epoch == self.proposals@[p as int].epoch,
                i <= n,
                acknowledgements@.len() == (if i <= p {
                    i as int
                } else {
                    i - 1
                }),
                forall|k: int|
                    0 <= k < acknowledgements@.len() ==> row_ack_expected(
                        *self,
                        *peer,
                        p as int,
                        k,
                        #[trigger] acknowledgements@[k],
                    ),
            decreases n - i,
        {
            if i != p {
                let t = &self.proposals[i];
                let ghost before = acknowledgements@;
                acknowledgements.push(
                    PeerEpochAcknowledgement {
                        peer_node_uid: peer.node_uid.clone(),
                        target_node_uid: t.recipient.node_uid.clone(),
                        epoch: t.epoch,
                        barrier_digest: t.barrier_digest,
                        peer_public_epoch: origin_epoch,
                        observed_at_unix_ms: self.issued_at_unix_ms,
                    },
                );
                proof {
                    assert forall|k: int| 0 <= k < acknowledgements@.len() implies row_ack_expected(
                        *self,
                        *peer,
                        p as int,
                        k,
                        #[trigger] acknowledgements@[k],
                    ) by {
                        if k < before.len() {
                            assert(acknowledgements@[k] == before[k]);
                        } else {
                            assert(skip_index(k, p as int) == i);
                        }
                    }
                }
            }
            i = i + 1;
        }
        let mut row = NodeKeyAttestationRow {
            schema_version: NODE_KEY_ATTESTATION_SCHEMA_VERSION,
            round_digest: self.round_digest,
            peer: peer.duplicate(),
            acknowledgements,
            row_digest: NodeKeyAttestationRowDigest([0u8; 32]),
        };
        let d = row.calculate_digest();
        row.row_digest = d;
        assert(row_content_ok(row, *self, p as int));
        assert(member_at(*self, p as int, recipient_view(row.peer)));
        Ok(row)
    }
}

} // verus!

verus! {

/// Publication `p` holds epoch `e` undrained, made for revision `revision`
/// with `peer_count` required peers, and live at `now`.
pub open spec fn epoch_live_in(
    p: NodeKeyPublication,
    e: u64,
    revision: Revision,
    peer_count: u32,
    now: u64,
) -> bool {
    exists|k: int|
        0 <= k < p.epochs@.len() && {
            let x = #[trigger] p.epochs@[k];
            &&& x.epoch == e
            &&& x.phase != KeyEpochPhase::Draining
            &&& x.topology_revision == revision
            &&& x.required_peer_count == peer_count
            &&& x.valid_from_unix_ms <= now < x.valid_until_unix_ms
        }
}

/// Some member has not yet activated epoch `e`.
pub open spec fn epoch_unfinished(t: NodeKeyTransparencyCut, e: u64) -> bool {
    exists|i: int, k: int|
        0 <= i < t.publications@.len() && 0 <= k < t.publications@[i].epochs@.len()
            && (#[trigger] t.publications@[i].epochs@[k]).epoch == e
            && t.publications@[i].epochs@[k].phase != KeyEpochPhase::Active
}

pub open spec fn peer_count_of(t: NodeKeyTransparencyCut) -> u32 {
    (t.members@.len() - 1) as u32
}

/// The `k`-th epoch of the first member's publication can be witnessed by
/// the whole fleet at `now` and is not yet active everywhere.
pub open spec fn candidate_at(t: NodeKeyTransparencyCut, now: u64, k: int) -> bool {
    let first = t.publications@[0];
    &&& 0 <= k < first.epochs@.len()
    &&& forall|i: int|
        0 <= i < t.publications@.len() ==> epoch_live_in(
            #[trigger] t.publications@[i],
            first.epochs@[k].epoch,
            t.membership_revision,
            peer_count_of(t),
            now,
        )
    &&& epoch_unfinished(t, first.epochs@[k].epoch)
}

/// Epoch `k` of the first publication is the one and only candidate.
pub open spec fn single_candidate(t: NodeKeyTransparencyCut, now: u64, k: int) -> bool {
    &&& candidate_at(t, now, k)
    &&& forall|j: int| 0 <= j < t.publications@[0].epochs@.len() && j != k ==> !candidate_at(t, now, j)
}

/// The proposal of `member` for `common`, taken from `p`.
pub open spec fn proposal_from(
    x: NodeKeyAttestationProposal,
    member: EncryptionGenerationRecipient,
    p: NodeKeyPublication,
    common: u64,
) -> bool {
    &&& x.recipient == member
    &&& exists|k: int|
        0 <= k < p.epochs@.len() && {
            let e = #[trigger] p.epochs@[k];
            &&& e.epoch == common
            &&& x.epoch == common
            &&& x.barrier_digest == e.barrier_digest
            &&& x.valid_from_unix_ms == e.valid_from_unix_ms
            &&& x.valid_until_unix_ms == e.valid_until_unix_ms
        }
}

fn epoch_live(p: &NodeKeyPublication, e: u64, revision: Revision, peer_count: u32, now: u64) -> (r: Option<usize>)
    ensures
        match r {
            Some(k) => k < p.epochs@.len() && p.epochs@[k as int].epoch == e && epoch_live_in(*p, e, revision, peer_count, now),
            None => !epoch_live_in(*p, e, revision, peer_count, now),
        },
{
    let mut k: usize = 0;
    while k < p.epochs.len()
        invariant
            k <= p.epochs@.len(),
            forall|j: int|
                0 <= j < k ==> {
                    let x = #[trigger] p.epochs@[j];
                    !(x.epoch == e && x.phase != KeyEpochPhase::Draining && x.topology_revision == revision
                        && x.required_peer_count == peer_count && x.valid_from_unix_ms <= now < x.valid_until_unix_ms)
                },
        decreases p.epochs@.len() - k,
    {
        let x = &p.epochs[k];
        if x.epoch == e && x.phase != KeyEpochPhase::Draining && x.topology_revision.0 == revision.0
            && x.required_peer_count == peer_count && x.valid_from_unix_ms <= now && now
            < x.valid_until_unix_ms {
            return Some(k);
        }
        k = k + 1;
    }
    None
}

fn is_unfinished(t: &NodeKeyTransparencyCut, e: u64) -> (r: bool)
    ensures
        r == epoch_unfinished(*t, e),
{
    let mut i: usize = 0;
    while i < t.publications.len()
        invariant
            i <= t.publications@.len(),
            forall|q: int, k: int|
                0 <= q < i && 0 <= k < t.publications@[q].epochs@.len() ==> !((#[trigger] t.publications@[q].epochs@[k]).epoch == e
                    && t.publications@[q].epochs@[k].phase != KeyEpochPhase::Active),
        decreases t.publications@.len() - i,
    {
        let p = &t.publications[i];
        let mut k: usize = 0;
        while k < p.epochs.len()
            invariant
                i < t.publications@.len(),
                *p == t.publications@[i as int],
                k <= p.epochs@.len(),
                forall|j: int| 0 <= j < k ==> !((#[trigger] p.epochs@[j]).epoch == e && p.epochs@[j].phase != KeyEpochPhase::Active),
            decreases p.epochs@.len() - k,
        {
            if p.epochs[k].epoch == e && p.epochs[k].phase != KeyEpochPhase::Active {
                return true;
            }
            k = k + 1;
        }
        i = i + 1;
    }
    false
}

fn is_candidate(t: &NodeKeyTransparencyCut, now: u64, k: usize) -> (r: bool)
    requires
        t.publications@.len() > 0,
        t.members@.len() > 0,
        t.members@.len() <= 4096,
        k < t.publications@[0].epochs@.len(),
    ensures
        r == candidate_at(*t, now, k as int),
{
    let e = t.publications[0].epochs[k].epoch;
    let peer_count = (t.members.len() - 1) as u32;
    let mut i: usize = 0;
    while i < t.publications.len()
        invariant
            i <= t.publications@.len(),
            e == t.publications@[0].epochs@[k as int].epoch,
            peer_count == peer_count_of(*t),
            forall|q: int|
                0 <= q < i ==> epoch_live_in(#[trigger] t.publications@[q], e, t.membership_revision, peer_count, now),
        decreases t.publications@.len() - i,
    {
        if epoch_live(&t.publications[i], e, t.membership_revision, peer_count, now).is_none() {
            return false;
        }
        i = i + 1;
    }
    is_unfinished(t, e)
}

/// `round` is the round frozen from `t` at `now`: the cut's exact
/// membership, each member's proposal for the one common candidate epoch.
pub open spec fn issued_from(round: NodeKeyAttestationRound, t: NodeKeyTransparencyCut, now: u64) -> bool {
    &&& round_ok(round)
    &&& round.cluster_id == t.cluster_id
    &&& round.membership_revision == t.membership_revision
    &&& round.members@ == t.members@
    &&& round.source_transparency_cut_digest == t.cut_digest
    &&& round.issued_at_unix_ms == now
    &&& exists|k: int|
        single_candidate(t, now, k) && forall|i: int|
            0 <= i < round.proposals@.len() ==> proposal_from(
                #[trigger] round.proposals@[i],
                t.members@[i],
                t.publications@[i],
                t.publications@[0].epochs@[k].epoch,
            )
}

impl NodeKeyAttestationRound {
    /// Freezes a complete public transparency cut into one reciprocal witness
    /// round for the one common unfinished epoch.
    #[verifier::spinoff_prover]
    #[verifier::rlimit(30)]
    pub fn issue(transparency: &NodeKeyTransparencyCut, issued_at_unix_ms: u64) -> (r: Result<
        Self,
        NodeKeyAttestationError,
    >)
        ensures
            r is Ok <==> cut_ok(*transparency) && issued_at_unix_ms != 0 && exists|k: int|
                single_candidate(*transparency, issued_at_unix_ms, k),
            !cut_ok(*transparency) ==> (r is Err && r->Err_0 is InvalidTransparencyCut),
            cut_ok(*transparency) && issued_at_unix_ms == 0 ==> (r is Err && r->Err_0 is InvalidRound),
            cut_ok(*transparency) && issued_at_unix_ms != 0 && !(exists|k: int|
                single_candidate(*transparency, issued_at_unix_ms, k)) ==> (r is Err
                && r->Err_0 is AmbiguousProposal),
            r matches Ok(round) ==> issued_from(round, *transparency, issued_at_unix_ms),
    {
        match transparency.verify() {
            Err(e) => {
                return Err(NodeKeyAttestationError::InvalidTransparencyCut(e));
            },
            Ok(()) => {},
        }
        if issued_at_unix_ms == 0 {
            return Err(NodeKeyAttestationError::InvalidRound);
        }
        let first = &transparency.publications[0];
        let mut count: usize = 0;
        let mut chosen: usize = 0;
        let mut k: usize = 0;
        while k < first.epochs.len()
            invariant
                cut_ok(*transparency),
                *first == transparency.publications@[0],
                k <= first.epochs@.len(),
                first.epochs@.len() <= 2,
                count <= k,
                count == 0 ==> forall|j: int| 0 <= j < k ==> !candidate_at(*transparency, issued_at_unix_ms, j),
                count == 1 ==> chosen < k && candidate_at(*transparency, issued_at_unix_ms, chosen as int) && forall|j: int|
                    0 <= j < k && j != chosen ==> !candidate_at(*transparency, issued_at_unix_ms, j),
                count >= 2 ==> exists|a: int, b: int|
                    0 <= a < b < k && candidate_at(*transparency, issued_at_unix_ms, a) && candidate_at(*transparency, issued_at_unix_ms, b),
            decreases first.epochs@.len() - k,
        {
            if is_candidate(transparency, issued_at_unix_ms, k) {
                if count == 1 {
                    assert(candidate_at(*transparency, issued_at_unix_ms, chosen as int));
                }
                chosen = if count == 0 {
                    k
                } else {
                    chosen
                };
                count = count + 1;
            }
            k = k + 1;
        }
        if count != 1 {
            proof {
                if exists|q: int| single_candidate(*transparency, issued_at_unix_ms, q) {
                    let q = choose|q: int| single_candidate(*transparency, issued_at_unix_ms, q);
                    if count >= 2 {
                        let (a, b) = choose|a: int, b: int|
                            0 <= a < b < k && candidate_at(*transparency, issued_at_unix_ms, a) && candidate_at(*transparency, issued_at_unix_ms, b);
                        assert(a == q || b == q);
                    }
                }
            }
            return Err(NodeKeyAttestationError::AmbiguousProposal);
        }
        let common = first.epochs[chosen].epoch;
        let peer_count = (transparency.members.len() - 1) as u32;
        let n = transparency.members.len();
        let mut proposals: Vec<NodeKeyAttestationProposal> = Vec::new();
        let mut i: usize = 0;
        while i < n
            invariant
                cut_ok(*transparency),
                n == transparency.members@.len(),
                n == transparency.publications@.len(),
                single_candidate(*transparency, issued_at_unix_ms, chosen as int),
                common == transparency.publications@[0].epochs@[chosen as int].epoch,
                peer_count == peer_count_of(*transparency),
                i <= n,
                proposals@.len() == i,
                forall|q: int|
                    0 <= q < i ==> proposal_from(
                        #[trigger] proposals@[q],
                        transparency.members@[q],
                        transparency.publications@[q],
                        common,
                    ),
                forall|q: int|
                    0 <= q < i ==> (#[trigger] proposals@[q]).valid_from_unix_ms <= issued_at_unix_ms
                        && issued_at_unix_ms < proposals@[q].valid_until_unix_ms && proposals@[q].epoch == common,
            decreases n - i,
        {
            let p = &transparency.publications[i];
            assert(epoch_live_in(transparency.publications@[i as int], common, transparency.membership_revision, peer_count, issued_at_unix_ms));
            let e = match epoch_live(p, common, transparency.membership_revision, peer_count, issued_at_unix_ms) {
                Some(k) => k,
                None => {
                    return Err(NodeKeyAttestationError::AmbiguousProposal);
                },
            };
            let x = &p.epochs[e];
            let ghost before = proposals@;
            proof {
                let w = choose|w: int|
                    0 <= w < p.epochs@.len() && {
                        let y = #[trigger] p.epochs@[w];
                        &&& y.epoch == common
                        &&& y.phase != KeyEpochPhase::Draining
                        &&& y.topology_revision == transparency.membership_revision
                        &&& y.required_peer_count == peer_count
                        &&& y.valid_from_unix_ms <= issued_at_unix_ms < y.valid_until_unix_ms
                    };
                if w != e as int {
                    if w < e {
                        assert(p.epochs@[w].epoch < p.epochs@[e as int].epoch);
                    } else {
                        assert(p.epochs@[e as int].epoch < p.epochs@[w].epoch);
                    }
                }
            }
            proposals.push(
                NodeKeyAttestationProposal {
                    recipient: transparency.members[i].duplicate(),
                    epoch: common,
                    barrier_digest: x.barrier_digest,
                    valid_from_unix_ms: x.valid_from_unix_ms,
                    valid_until_unix_ms: x.valid_until_unix_ms,
                },
            );
            proof {
                assert forall|q: int| 0 <= q < i + 1 implies proposal_from(
                    #[trigger] proposals@[q],
                    transparency.members@[q],
                    transparency.publications@[q],
                    common,
                ) by {
                    if q < i {
                        assert(proposals@[q] == before[q]);
                    } else {
                        assert(p.epochs@[e as int].epoch == common);
                    }
                }
                assert forall|q: int| 0 <= q < i + 1 implies (#[trigger] proposals@[q]).valid_from_unix_ms <= issued_at_unix_ms
                    && issued_at_unix_ms < proposals@[q].valid_until_unix_ms && proposals@[q].epoch == common by {
                    if q < i {
                        assert(proposals@[q] == before[q]);
                    }
                }
            }
            i = i + 1;
        }
        let members = copy_members(&transparency.members);
        let mut round = NodeKeyAttestationRound {
            schema_version: NODE_KEY_ATTESTATION_SCHEMA_VERSION,
            cluster_id: transparency.cluster_id.clone(),
            membership_revision: transparency.membership_revision,
            members,
            proposals,
            source_transparency_cut_digest: transparency.cut_digest,
            issued_at_unix_ms,
            round_digest: NodeKeyAttestationRoundDigest([0u8; 32]),
        };
        let d = round.calculate_digest();
        round.round_digest = d;
        proof {
            lemma_issued_round_ok(*transparency, round, common);
        }
        Ok(round)
    }
}

fn copy_members(v: &Vec<EncryptionGenerationRecipient>) -> (r: Vec<EncryptionGenerationRecipient>)
    ensures
        r@ == v@,
{
    let mut r: Vec<EncryptionGenerationRecipient> = Vec::new();
    let mut i: usize = 0;
    while i < v.len()
        invariant
            i <= v@.len(),
            r@ == v@.take(i as int),
        decreases v@.len() - i,
    {
        r.push(v[i].duplicate());
        assert(r@ =~= v@.take(i + 1));
        i = i + 1;
    }
    assert(v@.take(i as int) =~= v@);
    r
}

proof fn lemma_issued_round_ok(t: NodeKeyTransparencyCut, r: NodeKeyAttestationRound, common: u64)
    requires
        cut_ok(t),
        r.schema_version == NODE_KEY_ATTESTATION_SCHEMA_VERSION,
        r.cluster_id == t.cluster_id,
        r.membership_revision == t.membership_revision,
        r.members@ == t.members@,
        r.issued_at_unix_ms != 0,
        r.proposals@.len() == t.members@.len(),
        forall|q: int|
            0 <= q < r.proposals@.len() ==> proposal_from(
                #[trigger] r.proposals@[q],
                t.members@[q],
                t.publications@[q],
                common,
            ),
        forall|q: int|
            0 <= q < r.proposals@.len() ==> (#[trigger] r.proposals@[q]).valid_from_unix_ms <= r.issued_at_unix_ms
                && r.issued_at_unix_ms < r.proposals@[q].valid_until_unix_ms && r.proposals@[q].epoch == common,
        r.round_digest.0@ == round_digest_spec(r),
    ensures
        round_ok(r),
{
    assert(r.cluster_id@.len() > 0);
    let ms = r.members@;
    assert forall|a: int, b: int| 0 <= a < b < ms.len() implies pair_lt(
        recipient_view(#[trigger] ms[a]),
        recipient_view(#[trigger] ms[b]),
    ) by {
        assert(recipients_view(ms)[a] == recipient_view(ms[a]));
        assert(recipients_view(ms)[b] == recipient_view(ms[b]));
    }
    assert forall|i: int| 0 <= i < r.proposals@.len() implies {
        &&& recipient_view((#[trigger] r.proposals@[i]).recipient) == recipient_view(ms[i])
        &&& r.proposals@[i].epoch != 0
        &&& r.proposals@[i].valid_from_unix_ms <= r.issued_at_unix_ms
        &&& r.issued_at_unix_ms < r.proposals@[i].valid_until_unix_ms
    } by {
        assert(proposal_from(r.proposals@[i], t.members@[i], t.publications@[i], common));
        let p = t.publications@[i];
        assert(crate::key_authority::publication_ok(p));
        let k = choose|k: int|
            0 <= k < p.epochs@.len() && {
                let e = #[trigger] p.epochs@[k];
                &&& e.epoch == common
                &&& r.proposals@[i].epoch == common
                &&& r.proposals@[i].barrier_digest == e.barrier_digest
                &&& r.proposals@[i].valid_from_unix_ms == e.valid_from_unix_ms
                &&& r.proposals@[i].valid_until_unix_ms == e.valid_until_unix_ms
            };
        assert(crate::key_authority::publication_epoch_ok(p, p.epochs@[k]));
    }
}

} // verus!

verus! {

/// The proposal of the member named like publication `p`.
pub open spec fn proposal_of(r: NodeKeyAttestationRound, p: NodeKeyPublication, i: int) -> bool {
    0 <= i < r.proposals@.len() && r.proposals@[i].recipient.node_name@ == p.node_name@
        && r.proposals@[i].recipient.node_uid@ == p.node_uid@
}

/// Publication `p` still holds, undrained and unchanged, the epoch that
/// proposal `x` froze into round `r`.
pub open spec fn retains_proposal(r: NodeKeyAttestationRound, x: NodeKeyAttestationProposal, p: NodeKeyPublication) -> bool {
    exists|k: int|
        0 <= k < p.epochs@.len() && {
            let e = #[trigger] p.epochs@[k];
            &&& e.epoch == x.epoch
            &&& e.phase != KeyEpochPhase::Draining
            &&& e.topology_revision == r.membership_revision
            &&& e.barrier_digest.0@ == x.barrier_digest.0@
            &&& e.valid_from_unix_ms == x.valid_from_unix_ms
            &&& e.valid_until_unix_ms == x.valid_until_unix_ms
            &&& e.required_peer_count == r.members@.len() - 1
        }
}

/// Round `r` is live at `now`: issued, and no proposal has expired.
pub open spec fn round_live(r: NodeKeyAttestationRound, now: u64) -> bool {
    &&& r.issued_at_unix_ms <= now
    &&& forall|i: int| 0 <= i < r.proposals@.len() ==> now < (#[trigger] r.proposals@[i]).valid_until_unix_ms
}

/// What `verify_publication` accepts.
pub open spec fn publication_witnesses(r: NodeKeyAttestationRound, p: NodeKeyPublication, now: u64) -> bool {
    &&& round_ok(r)
    &&& crate::key_authority::publication_ok(p)
    &&& exists|i: int| proposal_of(r, p, i) && retains_proposal(r, r.proposals@[i], p)
    &&& r.cluster_id@ == p.cluster_id@
    &&& round_live(r, now)
}

impl NodeKeyAttestationRound {
    /// Binds a witness or activation to the caller's exact retained public
    /// epoch.
    pub fn verify_publication(&self, publication: &NodeKeyPublication, now_unix_ms: u64) -> (r: Result<
        (),
        NodeKeyAttestationError,
    >)
        ensures
            r is Ok <==> publication_witnesses(*self, *publication, now_unix_ms),
            round_ok(*self) && crate::key_authority::publication_ok(*publication) && !(exists|i: int|
                proposal_of(*self, *publication, i)) ==> (r is Err && r->Err_0 is ForeignPeer),
            r is Err ==> (r->Err_0 is InvalidRound || r->Err_0 is ForeignPeer),
    {
        self.verify()?;
        if publication.verify().is_err() {
            return Err(NodeKeyAttestationError::InvalidRound);
        }
        let n = self.proposals.len();
        let mut found: Option<usize> = None;
        let mut i: usize = 0;
        while i < n && found.is_none()
            invariant
                n == self.proposals@.len(),
                i <= n,
                found matches Some(j) ==> proposal_of(*self, *publication, j as int),
                found is None ==> forall|j: int| 0 <= j < i ==> !proposal_of(*self, *publication, j),
            decreases n - i,
        {
            let x = &self.proposals[i];
            if text_eq(x.recipient.node_name.as_str(), publication.node_name.as_str()) && text_eq(
                x.recipient.node_uid.as_str(),
                publication.node_uid.as_str(),
            ) {
                found = Some(i);
            }
            i = i + 1;
        }
        let j = match found {
            Some(j) => j,
            None => {
                return Err(NodeKeyAttestationError::ForeignPeer);
            },
        };
        proof {
            if exists|q: int| proposal_of(*self, *publication, q) && retains_proposal(*self, self.proposals@[q], *publication) {
                let q = choose|q: int| proposal_of(*self, *publication, q) && retains_proposal(*self, self.proposals@[q], *publication);
                lemma_member_unique(*self, j as int, q, (publication.node_name@, publication.node_uid@));
            }
        }
        let x = &self.proposals[j];
        let mut live = self.issued_at_unix_ms <= now_unix_ms;
        let mut q: usize = 0;
        while q < n
            invariant
                n == self.proposals@.len(),
                q <= n,
                live == (self.issued_at_unix_ms <= now_unix_ms && forall|w: int|
                    0 <= w < q ==> now_unix_ms < (#[trigger] self.proposals@[w]).valid_until_unix_ms),
            decreases n - q,
        {
            if now_unix_ms >= self.proposals[q].valid_until_unix_ms {
                live = false;
            }
            q = q + 1;
        }
        let mut retained = false;
        let mut k: usize = 0;
        while k < publication.epochs.len()
            invariant
                k <= publication.epochs@.len(),
                j < n,
                n == self.members@.len(),
                *x == self.proposals@[j as int],
                retained == exists|w: int|
                    0 <= w < k && {
                        let e = #[trigger] publication.epochs@[w];
                        &&& e.epoch == x.epoch
                        &&& e.phase != KeyEpochPhase::Draining
                        &&& e.topology_revision == self.membership_revision
                        &&& e.barrier_digest.0@ == x.barrier_digest.0@
                        &&& e.valid_from_unix_ms == x.valid_from_unix_ms
                        &&& e.valid_until_unix_ms == x.valid_until_unix_ms
                        &&& e.required_peer_count == self.members@.len() - 1
                    },
            decreases publication.epochs@.len() - k,
        {
            let e = &publication.epochs[k];
            if e.epoch == x.epoch && e.phase != KeyEpochPhase::Draining && e.topology_revision.0
                == self.membership_revision.0 && bytes32_eq(&e.barrier_digest.0, &x.barrier_digest.0)
                && e.valid_from_unix_ms == x.valid_from_unix_ms && e.valid_until_unix_ms
                == x.valid_until_unix_ms && e.required_peer_count as usize == self.members.len() - 1 {
                retained = true;
            }
            k = k + 1;
        }
        if !text_eq(self.cluster_id.as_str(), publication.cluster_id.as_str()) || !live || !retained {
            return Err(NodeKeyAttestationError::InvalidRound);
        }
        Ok(())
    }
}

/// The acknowledgement that the `k`-th other member owes `recipient`, the
/// member at `p`.
pub open spec fn column_ack_expected(
    r: NodeKeyAttestationRound,
    recipient: EncryptionGenerationRecipient,
    p: int,
    k: int,
    a: PeerEpochAcknowledgement,
) -> bool {
    let peer = r.proposals@[skip_index(k, p)];
    let target = r.proposals@[p];
    &&& a.peer_node_uid@ == peer.recipient.node_uid@
    &&& a.target_node_uid@ == recipient.node_uid@
    &&& a.epoch == target.epoch
    &&& a.barrier_digest.0@ == target.barrier_digest.0@
    &&& a.peer_public_epoch == peer.epoch
    &&& a.observed_at_unix_ms == r.issued_at_unix_ms
}

pub open spec fn column_ok(c: NodeKeyAttestationCut, p: int) -> bool {
    &&& c.schema_version == NODE_KEY_ATTESTATION_SCHEMA_VERSION
    &&& c.acknowledgements@.len() + 1 == c.round.proposals@.len()
    &&& forall|k: int|
        0 <= k < c.acknowledgements@.len() ==> column_ack_expected(
            c.round,
            c.recipient,
            p,
            k,
            #[trigger] c.acknowledgements@[k],
        )
}

/// What `NodeKeyAttestationCut::verify` accepts.
pub open spec fn attestation_cut_ok(c: NodeKeyAttestationCut) -> bool {
    &&& round_ok(c.round)
    &&& exists|p: int| member_at(c.round, p, recipient_view(c.recipient)) && column_ok(c, p)
    &&& c.cut_digest.0@ == attestation_cut_digest_spec(c)
}

impl NodeKeyAttestationCut {
    pub fn calculate_digest(&self) -> (d: NodeKeyAttestationCutDigest)
        ensures
            d.0@ == attestation_cut_digest_spec(*self),
    {
        let mut m: Vec<u8> = Vec::new();
        push_text(&mut m, CUT_DIGEST_DOMAIN);
        push_u16(&mut m, self.schema_version);
        push_round_material(&mut m, &self.round);
        push_raw32(&mut m, &self.round.round_digest.0);
        push_recipient(&mut m, &self.recipient);
        push_acks(&mut m, &self.acknowledgements);
        assert(m@ =~= text_bytes(CUT_DIGEST_DOMAIN@) + cut_material(*self));
        NodeKeyAttestationCutDigest(sha256(&m))
    }

    fn column_matches(&self, p: usize) -> (r: bool)
        requires
            round_ok(self.round),
            p < self.round.members@.len(),
        ensures
            r == column_ok(*self, p as int),
    {
        let n = self.round.proposals.len();
        if self.schema_version != NODE_KEY_ATTESTATION_SCHEMA_VERSION || n == 0
            || self.acknowledgements.len() != n - 1 {
            return false;
        }
        let target = &self.round.proposals[p];
        let mut k: usize = 0;
        while k < self.acknowledgements.len()
            invariant
                round_ok(self.round),
                p < n,
                n == self.round.proposals@.len(),
                self.acknowledgements@.len() + 1 == n,
                *target == self.round.proposals@[p as int],
                k <= self.acknowledgements@.len(),
                forall|j: int|
                    0 <= j < k ==> column_ack_expected(
                        self.round,
                        self.recipient,
                        p as int,
                        j,
                        #[trigger] self.acknowledgements@[j],
                    ),
            decreases self.acknowledgements@.len() - k,
        {
            let q = if k < p {
                k
            } else {
                k + 1
            };
            let a = &self.acknowledgements[k];
            let peer = &self.round.proposals[q];
            if !text_eq(a.peer_node_uid.as_str(), peer.recipient.node_uid.as_str()) || !text_eq(
                a.target_node_uid.as_str(),
                self.recipient.node_uid.as_str(),
            ) || a.epoch != target.epoch || !bytes32_eq(&a.barrier_digest.0, &target.barrier_digest.0)
                || a.peer_public_epoch != peer.epoch || a.observed_at_unix_ms
                != self.round.issued_at_unix_ms {
                return false;
            }
            k = k + 1;
        }
        true
    }

    /// Replays the frozen round and the exact authenticated peer column.
    pub fn verify(&self) -> (r: Result<(), NodeKeyAttestationError>)
        ensures
            r is Ok <==> attestation_cut_ok(*self),
            !round_ok(self.round) ==> (r is Err && r->Err_0 is InvalidRound),
            round_ok(self.round) && !is_member(self.round, recipient_view(self.recipient)) ==> (r is Err
                && r->Err_0 is ForeignPeer),
            round_ok(self.round) && is_member(self.round, recipient_view(self.recipient))
                && !attestation_cut_ok(*self) ==> (r is Err && r->Err_0 is InvalidCut),
    {
        self.round.verify()?;
        let p = match member_index_of(&self.round, &self.recipient) {
            Some(p) => p,
            None => {
                return Err(NodeKeyAttestationError::ForeignPeer);
            },
        };
        proof {
            assert(recipients_view(self.round.members@)[p as int] == recipient_view(self.round.members@[p as int]));
            if attestation_cut_ok(*self) {
                let q = choose|q: int|
                    member_at(self.round, q, recipient_view(self.recipient)) && column_ok(*self, q);
                lemma_member_unique(self.round, p as int, q, recipient_view(self.recipient));
            }
        }
        if !self.column_matches(p) {
            return Err(NodeKeyAttestationError::InvalidCut);
        }
        let expected = self.calculate_digest();
        if !bytes32_eq(&self.cut_digest.0, &expected.0) {
            return Err(NodeKeyAttestationError::InvalidCut);
        }
        Ok(())
    }
}

} // verus!

verus! {

/// Field-wise equality of two proposals.
pub open spec fn proposal_same(a: NodeKeyAttestationProposal, b: NodeKeyAttestationProposal) -> bool {
    &&& recipient_view(a.recipient) == recipient_view(b.recipient)
    &&& a.epoch == b.epoch
    &&& a.barrier_digest.0@ == b.barrier_digest.0@
    &&& a.valid_from_unix_ms == b.valid_from_unix_ms
    &&& a.valid_until_unix_ms == b.valid_until_unix_ms
}

pub open spec fn proposals_same(a: Seq<NodeKeyAttestationProposal>, b: Seq<NodeKeyAttestationProposal>) -> bool {
    &&& a.len() == b.len()
    &&& forall|i: int| 0 <= i < a.len() ==> proposal_same(#[trigger] a[i], b[i])
}

/// Every proposal of `next` is for a later epoch than the one beside it in
/// `prev`.
pub open spec fn epochs_advance(next: Seq<NodeKeyAttestationProposal>, prev: Seq<NodeKeyAttestationProposal>) -> bool {
    forall|i: int| 0 <= i < next.len() && i < prev.len() ==> (#[trigger] next[i]).epoch > prev[i].epoch
}

pub open spec fn acks_same(a: Seq<PeerEpochAcknowledgement>, b: Seq<PeerEpochAcknowledgement>) -> bool {
    &&& a.len() == b.len()
    &&& forall|i: int| 0 <= i < a.len() ==> ack_same(#[trigger] a[i], b[i])
}

/// Field-wise equality of two rows.
pub open spec fn row_same(a: NodeKeyAttestationRow, b: NodeKeyAttestationRow) -> bool {
    &&& a.schema_version == b.schema_version
    &&& a.round_digest.0@ == b.round_digest.0@
    &&& recipient_view(a.peer) == recipient_view(b.peer)
    &&& acks_same(a.acknowledgements@, b.acknowledgements@)
    &&& a.row_digest.0@ == b.row_digest.0@
}

/// `a` is a copy of `b`: equal fields, lists with equal contents.
pub open spec fn round_copy(a: NodeKeyAttestationRound, b: NodeKeyAttestationRound) -> bool {
    &&& a.schema_version == b.schema_version
    &&& a.cluster_id == b.cluster_id
    &&& a.membership_revision == b.membership_revision
    &&& a.members@ == b.members@
    &&& a.proposals@ == b.proposals@
    &&& a.source_transparency_cut_digest == b.source_transparency_cut_digest
    &&& a.issued_at_unix_ms == b.issued_at_unix_ms
    &&& a.round_digest == b.round_digest
}

fn proposal_equal(a: &NodeKeyAttestationProposal, b: &NodeKeyAttestationProposal) -> (r: bool)
    ensures
        r == proposal_same(*a, *b),
{
    recipient_eq(&a.recipient, &b.recipient) && a.epoch == b.epoch && bytes32_eq(
        &a.barrier_digest.0,
        &b.barrier_digest.0,
    ) && a.valid_from_unix_ms == b.valid_from_unix_ms && a.valid_until_unix_ms
        == b.valid_until_unix_ms
}

fn proposals_equal(a: &Vec<NodeKeyAttestationProposal>, b: &Vec<NodeKeyAttestationProposal>) -> (r: bool)
    ensures
        r == proposals_same(a@, b@),
{
    if a.len() != b.len() {
        return false;
    }
    let mut same = true;
    let mut i: usize = 0;
    while i < a.len()
        invariant
            a@.len() == b@.len(),
            i <= a@.len(),
            same == forall|j: int| 0 <= j < i ==> proposal_same(#[trigger] a@[j], b@[j]),
        decreases a@.len() - i,
    {
        if !proposal_equal(&a[i], &b[i]) {
            same = false;
        }
        i = i + 1;
    }
    same
}

fn epochs_advance_exec(next: &Vec<NodeKeyAttestationProposal>, prev: &Vec<NodeKeyAttestationProposal>) -> (r: bool)
    ensures
        r == epochs_advance(next@, prev@),
{
    let mut advance = true;
    let mut i: usize = 0;
    while i < next.len() && i < prev.len()
        invariant
            i <= next@.len(),
            advance == forall|j: int| 0 <= j < i && j < prev@.len() ==> (#[trigger] next@[j]).epoch > prev@[j].epoch,
        decreases next@.len() - i,
    {
        if next[i].epoch <= prev[i].epoch {
            advance = false;
        }
        i = i + 1;
    }
    advance
}

fn acks_equal(a: &Vec<PeerEpochAcknowledgement>, b: &Vec<PeerEpochAcknowledgement>) -> (r: bool)
    ensures
        r == acks_same(a@, b@),
{
    if a.len() != b.len() {
        return false;
    }
    let mut same = true;
    let mut i: usize = 0;
    while i < a.len()
        invariant
            a@.len() == b@.len(),
            i <= a@.len(),
            same == forall|j: int| 0 <= j < i ==> ack_same(#[trigger] a@[j], b@[j]),
        decreases a@.len() - i,
    {
        if !ack_equal(&a[i], &b[i]) {
            same = false;
        }
        i = i + 1;
    }
    same
}

fn row_equal(a: &NodeKeyAttestationRow, b: &NodeKeyAttestationRow) -> (r: bool)
    ensures
        r == row_same(*a, *b),
{
    a.schema_version == b.schema_version && bytes32_eq(&a.round_digest.0, &b.round_digest.0)
        && recipient_eq(&a.peer, &b.peer) && acks_equal(&a.acknowledgements, &b.acknowledgements)
        && bytes32_eq(&a.row_digest.0, &b.row_digest.0)
}

fn recipients_equal(a: &Vec<EncryptionGenerationRecipient>, b: &Vec<EncryptionGenerationRecipient>) -> (r: bool)
    ensures
        r == (recipients_view(a@) == recipients_view(b@)),
{
    if a.len() != b.len() {
        assert(recipients_view(a@).len() != recipients_view(b@).len());
        return false;
    }
    let mut same = true;
    let mut i: usize = 0;
    while i < a.len()
        invariant
            a@.len() == b@.len(),
            i <= a@.len(),
            same == forall|j: int| 0 <= j < i ==> recipient_view(#[trigger] a@[j]) == recipient_view(b@[j]),
        decreases a@.len() - i,
    {
        if !recipient_eq(&a[i], &b[i]) {
            same = false;
        }
        i = i + 1;
    }
    proof {
        if same {
            assert(recipients_view(a@) =~= recipients_view(b@));
        } else {
            let j = choose|j: int| 0 <= j < a@.len() && recipient_view(a@[j]) != recipient_view(b@[j]);
            assert(recipients_view(a@)[j] != recipients_view(b@)[j]);
        }
    }
    same
}

fn round_is_live(r: &NodeKeyAttestationRound, now: u64) -> (b: bool)
    ensures
        b == round_live(*r, now),
{
    let mut live = r.issued_at_unix_ms <= now;
    let mut q: usize = 0;
    while q < r.proposals.len()
        invariant
            q <= r.proposals@.len(),
            live == (r.issued_at_unix_ms <= now && forall|w: int|
                0 <= w < q ==> now < (#[trigger] r.proposals@[w]).valid_until_unix_ms),
        decreases r.proposals@.len() - q,
    {
        if now >= r.proposals[q].valid_until_unix_ms {
            live = false;
        }
        q = q + 1;
    }
    live
}

impl NodeKeyAttestationProposal {
    pub fn duplicate(&self) -> (r: Self)
        ensures
            r == *self,
    {
        NodeKeyAttestationProposal {
            recipient: self.recipient.duplicate(),
            epoch: self.epoch,
            barrier_digest: self.barrier_digest,
            valid_from_unix_ms: self.valid_from_unix_ms,
            valid_until_unix_ms: self.valid_until_unix_ms,
        }
    }
}

fn copy_proposals(v: &Vec<NodeKeyAttestationProposal>) -> (r: Vec<NodeKeyAttestationProposal>)
    ensures
        r@ == v@,
{
    let mut r: Vec<NodeKeyAttestationProposal> = Vec::new();
    let mut i: usize = 0;
    while i < v.len()
        invariant
            i <= v@.len(),
            r@ == v@.take(i as int),
        decreases v@.len() - i,
    {
        r.push(v[i].duplicate());
        assert(r@ =~= v@.take(i + 1));
        i = i + 1;
    }
    assert(v@.take(i as int) =~= v@);
    r
}

impl NodeKeyAttestationRound {
    /// A copy of this round.
    pub fn duplicate(&self) -> (r: Self)
        ensures
            round_copy(r, *self),
    {
        NodeKeyAttestationRound {
            schema_version: self.schema_version,
            cluster_id: self.cluster_id.clone(),
            membership_revision: self.membership_revision,
            members: copy_members(&self.members),
            proposals: copy_proposals(&self.proposals),
            source_transparency_cut_digest: self.source_transparency_cut_digest,
            issued_at_unix_ms: self.issued_at_unix_ms,
            round_digest: self.round_digest,
        }
    }
}

proof fn lemma_round_copy_ok(a: NodeKeyAttestationRound, b: NodeKeyAttestationRound)
    requires
        round_copy(a, b),
        round_ok(b),
    ensures
        round_ok(a),
{
    assert(round_material(a) == round_material(b));
}

/// Two rounds frozen from one cut at one instant hold the same proposals.
proof fn lemma_issued_unique(a: NodeKeyAttestationRound, b: NodeKeyAttestationRound, t: NodeKeyTransparencyCut, now: u64)
    requires
        cut_ok(t),
        issued_from(a, t, now),
        issued_from(b, t, now),
    ensures
        a.proposals@ == b.proposals@,
{
    let ka = choose|k: int|
        single_candidate(t, now, k) && forall|i: int|
            0 <= i < a.proposals@.len() ==> proposal_from(
                #[trigger] a.proposals@[i],
                t.members@[i],
                t.publications@[i],
                t.publications@[0].epochs@[k].epoch,
            );
    let kb = choose|k: int|
        single_candidate(t, now, k) && forall|i: int|
            0 <= i < b.proposals@.len() ==> proposal_from(
                #[trigger] b.proposals@[i],
                t.members@[i],
                t.publications@[i],
                t.publications@[0].epochs@[k].epoch,
            );
    assert(ka == kb);
    let common = t.publications@[0].epochs@[ka].epoch;
    assert forall|i: int| 0 <= i < a.proposals@.len() implies a.proposals@[i] == b.proposals@[i] by {
        assert(proposal_from(a.proposals@[i], t.members@[i], t.publications@[i], common));
        assert(proposal_from(b.proposals@[i], t.members@[i], t.publications@[i], common));
        let p = t.publications@[i];
        assert(crate::key_authority::publication_ok(p));
        let x = choose|k: int|
            0 <= k < p.epochs@.len() && {
                let e = #[trigger] p.epochs@[k];
                &&& e.epoch == common
                &&& a.proposals@[i].epoch == common
                &&& a.proposals@[i].barrier_digest == e.barrier_digest
                &&& a.proposals@[i].valid_from_unix_ms == e.valid_from_unix_ms
                &&& a.proposals@[i].valid_until_unix_ms == e.valid_until_unix_ms
            };
        let y = choose|k: int|
            0 <= k < p.epochs@.len() && {
                let e = #[trigger] p.epochs@[k];
                &&& e.epoch == common
                &&& b.proposals@[i].epoch == common
                &&& b.proposals@[i].barrier_digest == e.barrier_digest
                &&& b.proposals@[i].valid_from_unix_ms == e.valid_from_unix_ms
                &&& b.proposals@[i].valid_until_unix_ms == e.valid_until_unix_ms
            };
        if x < y {
            assert(p.epochs@[x].epoch < p.epochs@[y].epoch);
        } else if y < x {
            assert(p.epochs@[y].epoch < p.epochs@[x].epoch);
        }
    }
    assert(a.proposals@ =~= b.proposals@);
}

} // verus!

verus! {

/// The round, and one slot per member of it for that member's row.
pub type AttestationLedgerView = (Option<NodeKeyAttestationRound>, Seq<Option<NodeKeyAttestationRow>>);

/// Rounds and the reciprocal witness rows admitted into the current one.
#[derive(Debug)]
pub struct NodeKeyAttestationLedger {
    round: Option<NodeKeyAttestationRound>,
    rows: Vec<Option<NodeKeyAttestationRow>>,
}

impl View for NodeKeyAttestationLedger {
    type V = AttestationLedgerView;

    closed spec fn view(&self) -> AttestationLedgerView {
        (self.round, self.rows@)
    }
}

/// The slot of member `p` is empty or holds a verified row of that member.
pub open spec fn slot_ok(s: Option<NodeKeyAttestationRow>, r: NodeKeyAttestationRound, p: int) -> bool {
    match s {
        Some(w) => row_ok(w, r) && recipient_view(w.peer) == recipient_view(r.members@[p]),
        None => true,
    }
}

pub open spec fn ledger_wf(v: AttestationLedgerView) -> bool {
    match v.0 {
        None => v.1.len() == 0,
        Some(r) => {
            &&& round_ok(r)
            &&& v.1.len() == r.members@.len()
            &&& forall|p: int| 0 <= p < v.1.len() ==> slot_ok(#[trigger] v.1[p], r, p)
        },
    }
}

/// Every member's row is present.
pub open spec fn rows_complete(v: AttestationLedgerView) -> bool {
    forall|p: int| 0 <= p < v.1.len() ==> (#[trigger] v.1[p]) is Some
}

/// The cut names the round's exact cluster and membership.
pub open spec fn membership_matches(t: NodeKeyTransparencyCut, r: NodeKeyAttestationRound) -> bool {
    &&& t.cluster_id@ == r.cluster_id@
    &&& recipients_view(t.members@) == recipients_view(r.members@)
}

pub open spec fn revision_regressed(v: AttestationLedgerView, t: NodeKeyTransparencyCut) -> bool {
    match v.0 {
        Some(c) => t.membership_revision.0 < c.membership_revision.0,
        None => false,
    }
}

pub open spec fn same_revision(v: AttestationLedgerView, t: NodeKeyTransparencyCut) -> bool {
    match v.0 {
        Some(c) => t.membership_revision.0 == c.membership_revision.0,
        None => false,
    }
}

pub open spec fn membership_equivocated(v: AttestationLedgerView, t: NodeKeyTransparencyCut) -> bool {
    match v.0 {
        Some(c) => t.membership_revision.0 == c.membership_revision.0 && !membership_matches(t, c),
        None => false,
    }
}

/// A cut that may open a round: valid, and neither older than the current
/// round nor a different membership under the same revision.
pub open spec fn begin_admissible(v: AttestationLedgerView, t: NodeKeyTransparencyCut) -> bool {
    cut_ok(t) && !revision_regressed(v, t) && !membership_equivocated(v, t)
}

pub open spec fn has_candidate(t: NodeKeyTransparencyCut, now: u64) -> bool {
    exists|k: int| single_candidate(t, now, k)
}

pub open spec fn current_proposals(v: AttestationLedgerView) -> Seq<NodeKeyAttestationProposal> {
    match v.0 {
        Some(c) => c.proposals@,
        None => Seq::empty(),
    }
}

/// `v` holds a round frozen from `t` at `now`, with no row yet.
pub open spec fn opened(v: AttestationLedgerView, t: NodeKeyTransparencyCut, now: u64) -> bool {
    &&& v.0 is Some
    &&& issued_from(v.0->0, t, now)
    &&& v.1.len() == v.0->0.members@.len()
    &&& forall|p: int| 0 <= p < v.1.len() ==> (#[trigger] v.1[p]) is None
}

fn empty_rows(n: usize) -> (v: Vec<Option<NodeKeyAttestationRow>>)
    ensures
        v@.len() == n,
        forall|p: int| 0 <= p < n ==> (#[trigger] v@[p]) is None,
{
    let mut v: Vec<Option<NodeKeyAttestationRow>> = Vec::new();
    let mut i: usize = 0;
    while i < n
        invariant
            i <= n,
            v@.len() == i,
            forall|p: int| 0 <= p < i ==> (#[trigger] v@[p]) is None,
        decreases n - i,
    {
        v.push(None);
        i = i + 1;
    }
    v
}

impl Default for NodeKeyAttestationLedger {
    fn default() -> (r: Self)
        ensures
            r@ == (None::<NodeKeyAttestationRound>, Seq::<Option<NodeKeyAttestationRow>>::empty()),
            ledger_wf(r@),
    {
        NodeKeyAttestationLedger { round: None, rows: Vec::new() }
    }
}

impl NodeKeyAttestationLedger {
    pub closed spec fn wf(&self) -> bool {
        ledger_wf(self@)
    }

    /// Starts a round once per exact public proposal cut. Later phase updates
    /// cannot rewrite a frozen round, while a complete fleet-wide successor
    /// epoch may open a new round without manufacturing topology churn.
    pub fn begin_if_needed(&mut self, transparency: &NodeKeyTransparencyCut, issued_at_unix_ms: u64) -> (r:
        Result<bool, NodeKeyAttestationError>)
        requires
            ledger_wf(old(self)@),
        ensures
            ledger_wf(final(self)@),
            !cut_ok(*transparency) ==> (r matches Err(NodeKeyAttestationError::InvalidTransparencyCut(_))
                && final(self)@ == old(self)@),
            cut_ok(*transparency) && revision_regressed(old(self)@, *transparency) ==> (r == Err::<
                bool,
                NodeKeyAttestationError,
            >(NodeKeyAttestationError::MembershipRegression) && final(self)@ == old(self)@),
            cut_ok(*transparency) && membership_equivocated(old(self)@, *transparency) ==> (r == Err::<
                bool,
                NodeKeyAttestationError,
            >(NodeKeyAttestationError::MembershipEquivocation) && final(self)@ == old(self)@),
            begin_admissible(old(self)@, *transparency) && issued_at_unix_ms == 0 ==> (r == Err::<
                bool,
                NodeKeyAttestationError,
            >(NodeKeyAttestationError::InvalidRound) && final(self)@ == old(self)@),
            begin_admissible(old(self)@, *transparency) && issued_at_unix_ms != 0 && !has_candidate(
                *transparency,
                issued_at_unix_ms,
            ) ==> (r == Ok::<bool, NodeKeyAttestationError>(false) && final(self)@ == old(self)@),
            begin_admissible(old(self)@, *transparency) && issued_at_unix_ms != 0 && has_candidate(
                *transparency,
                issued_at_unix_ms,
            ) && !same_revision(old(self)@, *transparency) ==> (r == Ok::<bool, NodeKeyAttestationError>(true)
                && opened(final(self)@, *transparency, issued_at_unix_ms)),
            begin_admissible(old(self)@, *transparency) && issued_at_unix_ms != 0 && has_candidate(
                *transparency,
                issued_at_unix_ms,
            ) && same_revision(old(self)@, *transparency) ==> forall|s: NodeKeyAttestationRound|
                #[trigger] issued_from(s, *transparency, issued_at_unix_ms) ==> {
                    &&& proposals_same(s.proposals@, current_proposals(old(self)@)) ==> (r == Ok::<
                        bool,
                        NodeKeyAttestationError,
                    >(false) && final(self)@ == old(self)@)
                    &&& epochs_advance(s.proposals@, current_proposals(old(self)@)) ==> (r == Ok::<
                        bool,
                        NodeKeyAttestationError,
                    >(true) && opened(final(self)@, *transparency, issued_at_unix_ms))
                    &&& !proposals_same(s.proposals@, current_proposals(old(self)@)) && !epochs_advance(
                        s.proposals@,
                        current_proposals(old(self)@),
                    ) ==> (r == Err::<bool, NodeKeyAttestationError>(
                        NodeKeyAttestationError::ProposalRegression,
                    ) && final(self)@ == old(self)@)
                },
    {
        match transparency.verify() {
            Err(e) => {
                return Err(NodeKeyAttestationError::InvalidTransparencyCut(e));
            },
            Ok(()) => {},
        }
        let mut same = false;
        match &self.round {
            Some(current) => {
                if transparency.membership_revision.0 < current.membership_revision.0 {
                    return Err(NodeKeyAttestationError::MembershipRegression);
                }
                if transparency.membership_revision.0 == current.membership_revision.0 {
                    if !text_eq(transparency.cluster_id.as_str(), current.cluster_id.as_str())
                        || !recipients_equal(&transparency.members, &current.members) {
                        return Err(NodeKeyAttestationError::MembershipEquivocation);
                    }
                    same = true;
                }
            },
            None => {},
        }
        let successor = match NodeKeyAttestationRound::issue(transparency, issued_at_unix_ms) {
            Ok(round) => round,
            Err(NodeKeyAttestationError::AmbiguousProposal) => {
                return Ok(false);
            },
            Err(error) => {
                return Err(error);
            },
        };
        proof {
            assert forall|s: NodeKeyAttestationRound| #[trigger]
                issued_from(s, *transparency, issued_at_unix_ms) implies s.proposals@ == successor.proposals@ by {
                lemma_issued_unique(s, successor, *transparency, issued_at_unix_ms);
            }
        }
        if same {
            match &self.round {
                Some(current) => {
                    if proposals_equal(&successor.proposals, &current.proposals) {
                        return Ok(false);
                    }
                    if !epochs_advance_exec(&successor.proposals, &current.proposals) {
                        proof {
                            assert(!epochs_advance(successor.proposals@, current.proposals@));
                        }
                        return Err(NodeKeyAttestationError::ProposalRegression);
                    }
                    proof {
                        assert(successor.proposals@.len() > 0);
                        assert(successor.proposals@[0].epoch > current.proposals@[0].epoch);
                        assert(!proposals_same(successor.proposals@, current.proposals@));
                    }
                },
                None => {},
            }
        }
        let n = successor.members.len();
        self.round = Some(successor);
        self.rows = empty_rows(n);
        Ok(true)
    }
}

} // verus!

verus! {

/// The row comes from the authenticated Node it names, for the round's
/// cluster, while every proposal of the round is still live.
pub open spec fn row_admitted(
    r: NodeKeyAttestationRound,
    auth: AuthenticatedNodeIdentity,
    w: NodeKeyAttestationRow,
    now: u64,
) -> bool {
    &&& auth.cluster_id@ == r.cluster_id@
    &&& auth.node_name@ == w.peer.node_name@
    &&& auth.node_uid@ == w.peer.node_uid@
    &&& round_live(r, now)
}

/// The index of member `x` of the round.
pub open spec fn member_slot(r: NodeKeyAttestationRound, x: (Seq<char>, Seq<char>)) -> int {
    choose|p: int| member_at(r, p, x)
}

/// What `observe_row` answers.
pub open spec fn observe_outcome(
    v: AttestationLedgerView,
    auth: AuthenticatedNodeIdentity,
    w: NodeKeyAttestationRow,
    now: u64,
) -> Result<NodeKeyAttestationOutcome, NodeKeyAttestationError> {
    match v.0 {
        None => Err(NodeKeyAttestationError::Uninitialized),
        Some(r) => if !is_member(r, recipient_view(w.peer)) {
            Err(NodeKeyAttestationError::ForeignPeer)
        } else if !row_ok(w, r) {
            Err(NodeKeyAttestationError::InvalidRow)
        } else if !row_admitted(r, auth, w, now) {
            Err(NodeKeyAttestationError::UnauthenticatedOrExpiredRow)
        } else {
            match v.1[member_slot(r, recipient_view(w.peer))] {
                Some(prev) => if row_same(prev, w) {
                    Ok(NodeKeyAttestationOutcome::Idempotent)
                } else {
                    Err(NodeKeyAttestationError::RowMutation)
                },
                None => Ok(NodeKeyAttestationOutcome::Accepted),
            }
        },
    }
}

/// The ledger after `observe_row`: an accepted row fills its member's slot.
pub open spec fn observe_next(
    v: AttestationLedgerView,
    auth: AuthenticatedNodeIdentity,
    w: NodeKeyAttestationRow,
    now: u64,
) -> AttestationLedgerView {
    if observe_outcome(v, auth, w, now) == Ok::<NodeKeyAttestationOutcome, NodeKeyAttestationError>(
        NodeKeyAttestationOutcome::Accepted,
    ) {
        (v.0, v.1.update(member_slot(v.0->0, recipient_view(w.peer)), Some(w)))
    } else {
        v
    }
}

proof fn lemma_member_slot(r: NodeKeyAttestationRound, p: int, x: (Seq<char>, Seq<char>))
    requires
        round_ok(r),
        member_at(r, p, x),
    ensures
        member_slot(r, x) == p,
        is_member(r, x),
{
    lemma_member_unique(r, p, member_slot(r, x), x);
    assert(recipients_view(r.members@)[p] == x);
}

impl NodeKeyAttestationLedger {
    #[must_use]
    pub fn round(&self) -> (r: Option<&NodeKeyAttestationRound>)
        ensures
            match r {
                Some(x) => self@.0 == Some(*x),
                None => self@.0 is None,
            },
    {
        self.round.as_ref()
    }

    /// Authenticates and admits one exact reciprocal witness row.
    pub fn observe_row(
        &mut self,
        authenticated: &AuthenticatedNodeIdentity,
        row: NodeKeyAttestationRow,
        now_unix_ms: u64,
    ) -> (r: Result<NodeKeyAttestationOutcome, NodeKeyAttestationError>)
        requires
            ledger_wf(old(self)@),
        ensures
            ledger_wf(final(self)@),
            r == observe_outcome(old(self)@, *authenticated, row, now_unix_ms),
            final(self)@ == observe_next(old(self)@, *authenticated, row, now_unix_ms),
    {
        let p = match &self.round {
            None => {
                return Err(NodeKeyAttestationError::Uninitialized);
            },
            Some(round) => {
                match row.verify(round) {
                    Err(e) => {
                        return Err(e);
                    },
                    Ok(()) => {},
                }
                if !text_eq(authenticated.cluster_id.as_str(), round.cluster_id.as_str()) || !text_eq(
                    authenticated.node_name.as_str(),
                    row.peer.node_name.as_str(),
                ) || !text_eq(authenticated.node_uid.as_str(), row.peer.node_uid.as_str())
                    || !round_is_live(round, now_unix_ms) {
                    return Err(NodeKeyAttestationError::UnauthenticatedOrExpiredRow);
                }
                match member_index_of(round, &row.peer) {
                    Some(p) => {
                        proof {
                            lemma_member_slot(*round, p as int, recipient_view(row.peer));
                        }
                        p
                    },
                    None => {
                        return Err(NodeKeyAttestationError::ForeignPeer);
                    },
                }
            },
        };
        match &self.rows[p] {
            Some(previous) => {
                if row_equal(previous, &row) {
                    return Ok(NodeKeyAttestationOutcome::Idempotent);
                } else {
                    return Err(NodeKeyAttestationError::RowMutation);
                }
            },
            None => {},
        }
        let ghost before = self.rows@;
        self.rows.set(p, Some(row));
        proof {
            let r0 = self.round->0;
            assert forall|q: int| 0 <= q < self.rows@.len() implies slot_ok(#[trigger] self.rows@[q], r0, q) by {
                if q != p {
                    assert(self.rows@[q] == before[q]);
                }
            }
            assert(self.rows@ =~= before.update(p as int, Some(row)));
        }
        Ok(NodeKeyAttestationOutcome::Accepted)
    }
}

} // verus!

verus! {

/// No two members of the round share a UID.
pub open spec fn member_uids_distinct(r: NodeKeyAttestationRound) -> bool {
    forall|a: int, b: int|
        0 <= a < b < r.members@.len() ==> (#[trigger] r.members@[a]).node_uid@ != (#[trigger] r.members@[b]).node_uid@
}

/// `j` is the first acknowledgement in `acks` addressed to `uid`.
pub open spec fn first_for_target(acks: Seq<PeerEpochAcknowledgement>, uid: Seq<char>, j: int) -> bool {
    &&& 0 <= j < acks.len()
    &&& acks[j].target_node_uid@ == uid
    &&& forall|i: int| 0 <= i < j ==> (#[trigger] acks[i]).target_node_uid@ != uid
}

fn find_ack_for(acks: &Vec<PeerEpochAcknowledgement>, uid: &str) -> (r: Option<usize>)
    ensures
        match r {
            Some(j) => first_for_target(acks@, uid@, j as int),
            None => forall|i: int| 0 <= i < acks@.len() ==> (#[trigger] acks@[i]).target_node_uid@ != uid@,
        },
{
    let mut found: Option<usize> = None;
    let mut i: usize = 0;
    while i < acks.len() && found.is_none()
        invariant
            i <= acks@.len(),
            found matches Some(j) ==> first_for_target(acks@, uid@, j as int),
            found is None ==> forall|q: int| 0 <= q < i ==> (#[trigger] acks@[q]).target_node_uid@ != uid@,
        decreases acks@.len() - i,
    {
        if text_eq(acks[i].target_node_uid.as_str(), uid) {
            found = Some(i);
        }
        i = i + 1;
    }
    found
}

/// The verified row of member `q` acknowledges member `p`.
proof fn lemma_target_present(
    r: NodeKeyAttestationRound,
    w: NodeKeyAttestationRow,
    recipient: EncryptionGenerationRecipient,
    p: int,
    q: int,
)
    requires
        round_ok(r),
        member_at(r, p, recipient_view(recipient)),
        0 <= q < r.members@.len(),
        q != p,
        row_ok(w, r),
        recipient_view(w.peer) == recipient_view(r.members@[q]),
    ensures
        0 <= (if p < q { p } else { p - 1 }) < w.acknowledgements@.len(),
        w.acknowledgements@[if p < q { p } else { p - 1 }].target_node_uid@ == recipient.node_uid@,
{
    let q2 = choose|x: int| member_at(r, x, recipient_view(w.peer)) && row_content_ok(w, r, x);
    lemma_member_unique(r, q, q2, recipient_view(w.peer));
    let kstar = if p < q { p } else { p - 1 };
    assert(skip_index(kstar, q) == p);
    assert(row_ack_expected(r, w.peer, q, kstar, w.acknowledgements@[kstar]));
    assert(r.proposals@[p].recipient.node_uid@ == r.members@[p].node_uid@);
}

/// The first acknowledgement to `recipient` in the verified row of member
/// `q` is the one the column of member `p` needs from `q`.
proof fn lemma_column_entry(
    r: NodeKeyAttestationRound,
    w: NodeKeyAttestationRow,
    recipient: EncryptionGenerationRecipient,
    p: int,
    q: int,
    j: int,
)
    requires
        round_ok(r),
        member_uids_distinct(r),
        member_at(r, p, recipient_view(recipient)),
        0 <= q < r.members@.len(),
        q != p,
        row_ok(w, r),
        recipient_view(w.peer) == recipient_view(r.members@[q]),
        first_for_target(w.acknowledgements@, recipient.node_uid@, j),
    ensures
        column_ack_expected(r, recipient, p, if q < p { q } else { q - 1 }, w.acknowledgements@[j]),
{
    let q2 = choose|x: int| member_at(r, x, recipient_view(w.peer)) && row_content_ok(w, r, x);
    lemma_member_unique(r, q, q2, recipient_view(w.peer));
    let acks = w.acknowledgements@;
    let kstar = if p < q { p } else { p - 1 };
    assert(skip_index(kstar, q) == p);
    assert(row_ack_expected(r, w.peer, q, kstar, acks[kstar]));
    assert(r.proposals@[p].recipient.node_uid@ == r.members@[p].node_uid@);
    assert(acks[kstar].target_node_uid@ == recipient.node_uid@);
    assert(row_ack_expected(r, w.peer, q, j, acks[j]));
    let t = skip_index(j, q);
    assert(r.proposals@[t].recipient.node_uid@ == r.members@[t].node_uid@);
    if t != p {
        if t < p {
            assert(r.members@[t].node_uid@ != r.members@[p].node_uid@);
        } else {
            assert(r.members@[p].node_uid@ != r.members@[t].node_uid@);
        }
    }
    assert(j == kstar);
    let k = if q < p { q } else { q - 1 };
    assert(skip_index(k, p) == q);
    assert(r.proposals@[q].recipient.node_uid@ == r.members@[q].node_uid@);
}

impl NodeKeyAttestationLedger {
    /// Returns a recipient column only after every member row is present.
    pub fn complete_cut_for(&self, recipient: &EncryptionGenerationRecipient) -> (r: Result<
        Option<NodeKeyAttestationCut>,
        NodeKeyAttestationError,
    >)
        requires
            ledger_wf(self@),
        ensures
            self@.0 is None ==> r == Err::<Option<NodeKeyAttestationCut>, NodeKeyAttestationError>(
                NodeKeyAttestationError::Uninitialized,
            ),
            self@.0 matches Some(round) && !is_member(round, recipient_view(*recipient)) ==> r == Err::<
                Option<NodeKeyAttestationCut>,
                NodeKeyAttestationError,
            >(NodeKeyAttestationError::ForeignPeer),
            self@.0 matches Some(round) && is_member(round, recipient_view(*recipient)) && !rows_complete(self@)
                ==> r == Ok::<Option<NodeKeyAttestationCut>, NodeKeyAttestationError>(None),
            self@.0 matches Some(round) && is_member(round, recipient_view(*recipient)) && rows_complete(self@)
                && member_uids_distinct(round) ==> r matches Ok(Some(_)),
            r matches Ok(Some(c)) ==> {
                &&& rows_complete(self@)
                &&& attestation_cut_ok(c)
                &&& round_copy(c.round, self@.0->0)
                &&& c.recipient == *recipient
            },
            r is Err ==> (r == Err::<Option<NodeKeyAttestationCut>, NodeKeyAttestationError>(
                NodeKeyAttestationError::Uninitialized,
            ) || r == Err::<Option<NodeKeyAttestationCut>, NodeKeyAttestationError>(
                NodeKeyAttestationError::ForeignPeer,
            ) || r == Err::<Option<NodeKeyAttestationCut>, NodeKeyAttestationError>(
                NodeKeyAttestationError::InvalidCut,
            )),
    {
        let round = match &self.round {
            None => {
                return Err(NodeKeyAttestationError::Uninitialized);
            },
            Some(round) => round,
        };
        let p = match member_index_of(round, recipient) {
            Some(p) => p,
            None => {
                return Err(NodeKeyAttestationError::ForeignPeer);
            },
        };
        proof {
            lemma_member_slot(*round, p as int, recipient_view(*recipient));
        }
        let n = self.rows.len();
        let mut complete = true;
        let mut i: usize = 0;
        while i < n
            invariant
                n == self.rows@.len(),
                i <= n,
                complete == forall|q: int| 0 <= q < i ==> (#[trigger] self.rows@[q]) is Some,
            decreases n - i,
        {
            if self.rows[i].is_none() {
                complete = false;
            }
            i = i + 1;
        }
        if !complete {
            return Ok(None);
        }
        let mut acknowledgements: Vec<PeerEpochAcknowledgement> = Vec::new();
        let mut q: usize = 0;
        while q < n
            invariant
                ledger_wf(self@),
                self@.0 == Some(*round),
                n == self.rows@.len(),
                n == round.members@.len(),
                n == round.proposals@.len(),
                rows_complete(self@),
                member_at(*round, p as int, recipient_view(*recipient)),
                is_member(*round, recipient_view(*recipient)),
                p < n,
                q <= n,
                acknowledgements@.len() == (if q <= p {
                    q as int
                } else {
                    q - 1
                }),
                member_uids_distinct(*round) ==> forall|k: int|
                    0 <= k < acknowledgements@.len() ==> column_ack_expected(
                        *round,
                        *recipient,
                        p as int,
                        k,
                        #[trigger] acknowledgements@[k],
                    ),
            decreases n - q,
        {
            if q != p {
                let w = match &self.rows[q] {
                    Some(w) => w,
                    None => {
                        return Err(NodeKeyAttestationError::InvalidCut);
                    },
                };
                assert(slot_ok(self.rows@[q as int], *round, q as int));
                let j = match find_ack_for(&w.acknowledgements, recipient.node_uid.as_str()) {
                    Some(j) => j,
                    None => {
                        proof {
                            lemma_target_present(*round, *w, *recipient, p as int, q as int);
                        }
                        return Err(NodeKeyAttestationError::InvalidCut);
                    },
                };
                let ghost before = acknowledgements@;
                acknowledgements.push(w.acknowledgements[j].duplicate());
                proof {
                    if member_uids_distinct(*round) {
                        lemma_column_entry(*round, *w, *recipient, p as int, q as int, j as int);
                        assert forall|k: int| 0 <= k < acknowledgements@.len() implies column_ack_expected(
                            *round,
                            *recipient,
                            p as int,
                            k,
                            #[trigger] acknowledgements@[k],
                        ) by {
                            if k < before.len() {
                                assert(acknowledgements@[k] == before[k]);
                            }
                        }
                    }
                }
            }
            q = q + 1;
        }
        let mut cut = NodeKeyAttestationCut {
            schema_version: NODE_KEY_ATTESTATION_SCHEMA_VERSION,
            round: round.duplicate(),
            recipient: recipient.duplicate(),
            acknowledgements,
            cut_digest: NodeKeyAttestationCutDigest([0u8; 32]),
        };
        let d = cut.calculate_digest();
        cut.cut_digest = d;
        proof {
            lemma_round_copy_ok(cut.round, *round);
            assert(member_at(cut.round, p as int, recipient_view(cut.recipient)));
            assert(recipients_view(cut.round.members@)[p as int] == recipient_view(cut.recipient));
            if member_uids_distinct(*round) {
                assert(column_ok(cut, p as int));
            }
        }
        match cut.verify() {
            Ok(()) => Ok(Some(cut)),
            Err(_) => Err(NodeKeyAttestationError::InvalidCut),
        }
    }
}

} // verus!

verus! {

proof fn lemma_acks_concat_same(a: Seq<PeerEpochAcknowledgement>, b: Seq<PeerEpochAcknowledgement>)
    requires
        acks_same(a, b),
    ensures
        crate::key_authority::acks_concat(a) == crate::key_authority::acks_concat(b),
    decreases a.len(),
{
    if a.len() > 0 {
        lemma_acks_concat_same(a.drop_last(), b.drop_last());
        assert(ack_same(a.last(), b.last()));
    }
}

/// Replaying an accepted row answers `Idempotent` and changes nothing.
pub proof fn lemma_row_replay_idempotent(
    v: AttestationLedgerView,
    auth: AuthenticatedNodeIdentity,
    w: NodeKeyAttestationRow,
    now: u64,
)
    requires
        ledger_wf(v),
        observe_outcome(v, auth, w, now) == Ok::<NodeKeyAttestationOutcome, NodeKeyAttestationError>(
            NodeKeyAttestationOutcome::Accepted,
        ),
    ensures
        observe_outcome(observe_next(v, auth, w, now), auth, w, now) == Ok::<
            NodeKeyAttestationOutcome,
            NodeKeyAttestationError,
        >(NodeKeyAttestationOutcome::Idempotent),
        observe_next(observe_next(v, auth, w, now), auth, w, now) == observe_next(v, auth, w, now),
{
    let r = v.0->0;
    let x = recipient_view(w.peer);
    let i = choose|i: int| 0 <= i < recipients_view(r.members@).len() && recipients_view(r.members@)[i] == x;
    assert(member_at(r, i, x));
    lemma_member_slot(r, i, x);
    let next = observe_next(v, auth, w, now);
    assert(next.1[i] == Some(w));
    assert(acks_same(w.acknowledgements@, w.acknowledgements@));
}

/// An admitted row is never replaced or removed by a later observation, and
/// the round stays as it is.
pub proof fn lemma_observed_rows_frozen(
    v: AttestationLedgerView,
    auth: AuthenticatedNodeIdentity,
    w: NodeKeyAttestationRow,
    now: u64,
    p: int,
)
    requires
        ledger_wf(v),
        0 <= p < v.1.len(),
        v.1[p] is Some,
    ensures
        observe_next(v, auth, w, now).0 == v.0,
        observe_next(v, auth, w, now).1[p] == v.1[p],
        observe_next(v, auth, w, now).1.len() == v.1.len(),
{
    if observe_outcome(v, auth, w, now) == Ok::<NodeKeyAttestationOutcome, NodeKeyAttestationError>(
        NodeKeyAttestationOutcome::Accepted,
    ) {
        let r = v.0->0;
        let x = recipient_view(w.peer);
        let i = choose|i: int| 0 <= i < recipients_view(r.members@).len() && recipients_view(r.members@)[i] == x;
        assert(member_at(r, i, x));
        lemma_member_slot(r, i, x);
        assert(v.1[i] is None);
    }
}

/// A member's row for a round is unique: any two rows that verify against
/// one round for one member are equal in every field, so a row rebuilt after
/// a restart matches the one first sent.
pub proof fn lemma_row_deterministic(w1: NodeKeyAttestationRow, w2: NodeKeyAttestationRow, r: NodeKeyAttestationRound)
    requires
        row_ok(w1, r),
        row_ok(w2, r),
        recipient_view(w1.peer) == recipient_view(w2.peer),
    ensures
        row_same(w1, w2),
{
    let p1 = choose|x: int| member_at(r, x, recipient_view(w1.peer)) && row_content_ok(w1, r, x);
    let p2 = choose|x: int| member_at(r, x, recipient_view(w2.peer)) && row_content_ok(w2, r, x);
    lemma_member_unique(r, p1, p2, recipient_view(w1.peer));
    assert forall|k: int| 0 <= k < w1.acknowledgements@.len() implies ack_same(
        #[trigger] w1.acknowledgements@[k],
        w2.acknowledgements@[k],
    ) by {
        assert(row_ack_expected(r, w1.peer, p1, k, w1.acknowledgements@[k]));
        assert(row_ack_expected(r, w2.peer, p1, k, w2.acknowledgements@[k]));
    }
    lemma_acks_concat_same(w1.acknowledgements@, w2.acknowledgements@);
    assert(row_material(w1) == row_material(w2));
}

} // verus!
