//! Complete-cut public-key transparency for plan production.
//!
//! Agents remain the sole private-key owners. The controller observes and
//! joins authenticated public publications, but a plan producer sees them
//! only after every exact current member has contributed one monotonic
//! record.

use vstd::prelude::*;
use crate::digest::{
    bytes32_eq, push_raw32, push_text, push_u16, push_u64, raw_bytes, sha256, sha256_spec,
    text_bytes, u16_bytes, u64_bytes,
};
use crate::ids::Revision;
use crate::key_authority::{
    admission_spec, admit_authenticated_publication, publication_bytes, publication_ok,
    AuthenticatedNodeIdentity, KeyAuthorityError, NodeKeyPublication, PublicationAdmission,
    push_publication,
};
use crate::recipients::{
    canonical_recipients, contains_recipient, identity_text, recipient_ok, validate_recipient, lemma_pair_lt_asymmetric,
    pair_lt, pairs_sorted, recipient_lt, recipient_view, recipients_view, valid_identity,
    EncryptionGenerationRecipient,
};
use crate::text::{bounded_text, is_bounded_text, text_eq};
use vstd::pervasive::VecAdditionalExecFns;

verus! {

pub const NODE_KEY_TRANSPARENCY_CUT_SCHEMA_VERSION: u16 = 1;
pub const ENCRYPTION_KEY_BOOTSTRAP_SCHEMA_VERSION: u16 = 2;
pub const MAX_KEY_TRANSPARENCY_MEMBERS: usize = 4096;
pub const NODE_KEY_TRANSPARENCY_CUT_DIGEST_DOMAIN: &'static str = "unf.node-key-transparency-cut.v1";
pub const ENCRYPTION_KEY_BOOTSTRAP_DIGEST_DOMAIN: &'static str = "unf.encryption-key-bootstrap.v2";

#[derive(Debug)]
pub enum NodeKeyTransparencyError {
    InvalidBootstrap,
    InvalidMembership,
    MembershipRegression,
    MembershipEquivocation,
    Uninitialized,
    ForeignMembership,
    InvalidPublication(KeyAuthorityError),
    InvalidCut,
    Encoding(String),
}

#[derive(Clone, Copy, Debug)]
pub struct NodeKeyTransparencyCutDigest(pub [u8; 32]);

#[derive(Clone, Copy, Debug)]
pub struct EncryptionKeyBootstrapDigest(pub [u8; 32]);

#[derive(Clone, Copy, Debug, PartialEq, Eq, Structural)]
pub enum NodeKeyTransparencyOutcome {
    Accepted,
    Idempotent,
}

/// A valid exact membership: bounded cluster identity, a nonzero revision, and
/// a nonempty, bounded, strictly increasing list of valid Node identities.
pub open spec fn membership_ok(
    cluster_id: Seq<char>,
    membership_revision: Revision,
    members: Seq<EncryptionGenerationRecipient>,
) -> bool {
    &&& bounded_text(cluster_id, 253)
    &&& membership_revision.0 != 0
    &&& 0 < members.len() <= MAX_KEY_TRANSPARENCY_MEMBERS
    &&& pairs_sorted(recipients_view(members))
    &&& forall|i: int| 0 <= i < members.len() ==> recipient_ok(#[trigger] members[i])
}

pub fn validate_membership(
    cluster_id: &str,
    membership_revision: Revision,
    members: &Vec<EncryptionGenerationRecipient>,
) -> (r: Result<(), NodeKeyTransparencyError>)
    ensures
        r is Ok <==> membership_ok(cluster_id@, membership_revision, members@),
        r is Err ==> r->Err_0 is InvalidMembership,
{
    if !is_bounded_text(cluster_id, 253) || membership_revision.0 == 0 || members.len() == 0
        || members.len() > MAX_KEY_TRANSPARENCY_MEMBERS {
        return Err(NodeKeyTransparencyError::InvalidMembership);
    }
    let n = members.len();
    let mut i: usize = 0;
    while i < n
        invariant
            n == members@.len(),
            i <= n,
            forall|j: int| 0 <= j < i ==> recipient_ok(#[trigger] members@[j]),
            forall|a: int, b: int|
                0 <= a < b < n && b < i ==> pair_lt(
                    #[trigger] recipients_view(members@)[a],
                    #[trigger] recipients_view(members@)[b],
                ),
        decreases n - i,
    {
        if validate_recipient(&members[i]).is_err() {
            return Err(NodeKeyTransparencyError::InvalidMembership);
        }
        if i > 0 && !recipient_lt(&members[i - 1], &members[i]) {
            proof {
                let w = recipients_view(members@);
                assert(w[i - 1] == recipient_view(members@[i - 1]));
                assert(w[i as int] == recipient_view(members@[i as int]));
            }
            return Err(NodeKeyTransparencyError::InvalidMembership);
        }
        proof {
            let w = recipients_view(members@);
            if i > 0 {
                assert(w[i - 1] == recipient_view(members@[i - 1]));
                assert(w[i as int] == recipient_view(members@[i as int]));
                assert forall|a: int, b: int| 0 <= a < b < n && b < i + 1 implies pair_lt(
                    #[trigger] w[a],
                    #[trigger] w[b],
                ) by {
                    if b == i && a < i - 1 {
                        crate::recipients::lemma_pair_lt_transitive(w[a], w[i - 1], w[b]);
                    }
                }
            }
        }
        i = i + 1;
    }
    Ok(())
}

} // verus!

verus! {

/// One public-only, exact-membership view of Node key epochs.
#[derive(Clone, Debug)]
pub struct NodeKeyTransparencyCut {
    pub schema_version: u16,
    pub cluster_id: String,
    pub membership_revision: Revision,
    pub members: Vec<EncryptionGenerationRecipient>,
    pub publications: Vec<NodeKeyPublication>,
    pub cut_digest: NodeKeyTransparencyCutDigest,
}

pub open spec fn recipient_bytes(r: EncryptionGenerationRecipient) -> Seq<u8> {
    text_bytes(r.node_name@) + text_bytes(r.node_uid@)
}

pub open spec fn recipients_concat(v: Seq<EncryptionGenerationRecipient>) -> Seq<u8>
    decreases v.len(),
{
    if v.len() == 0 {
        Seq::empty()
    } else {
        recipients_concat(v.drop_last()) + recipient_bytes(v.last())
    }
}

pub open spec fn recipients_bytes(v: Seq<EncryptionGenerationRecipient>) -> Seq<u8> {
    u64_bytes(v.len() as u64) + recipients_concat(v)
}

pub open spec fn publications_concat(v: Seq<NodeKeyPublication>) -> Seq<u8>
    decreases v.len(),
{
    if v.len() == 0 {
        Seq::empty()
    } else {
        publications_concat(v.drop_last()) + publication_bytes(v.last())
    }
}

pub open spec fn cut_material(c: NodeKeyTransparencyCut) -> Seq<u8> {
    u16_bytes(c.schema_version) + text_bytes(c.cluster_id@) + u64_bytes(c.membership_revision.0)
        + recipients_bytes(c.members@) + u64_bytes(c.publications@.len() as u64)
        + publications_concat(c.publications@)
}

/// The digest committing to every cut field except the digest itself.
pub open spec fn cut_digest_spec(c: NodeKeyTransparencyCut) -> Seq<u8> {
    sha256_spec(text_bytes(NODE_KEY_TRANSPARENCY_CUT_DIGEST_DOMAIN@) + cut_material(c))
}

pub fn push_recipients(out: &mut Vec<u8>, v: &Vec<EncryptionGenerationRecipient>)
    ensures
        final(out)@ == old(out)@ + recipients_bytes(v@),
{
    push_u64(out, v.len() as u64);
    let ghost start = out@;
    let mut i: usize = 0;
    while i < v.len()
        invariant
            i <= v@.len(),
            out@ == start + recipients_concat(v@.take(i as int)),
        decreases v@.len() - i,
    {
        push_text(out, v[i].node_name.as_str());
        push_text(out, v[i].node_uid.as_str());
        assert(v@.take(i + 1).drop_last() =~= v@.take(i as int));
        i = i + 1;
    }
    assert(v@.take(i as int) =~= v@);
}

fn push_publications(out: &mut Vec<u8>, v: &Vec<NodeKeyPublication>)
    ensures
        final(out)@ == old(out)@ + u64_bytes(v@.len() as u64) + publications_concat(v@),
{
    push_u64(out, v.len() as u64);
    let ghost start = out@;
    let mut i: usize = 0;
    while i < v.len()
        invariant
            i <= v@.len(),
            out@ == start + publications_concat(v@.take(i as int)),
        decreases v@.len() - i,
    {
        push_publication(out, &v[i]);
        assert(v@.take(i + 1).drop_last() =~= v@.take(i as int));
        i = i + 1;
    }
    assert(v@.take(i as int) =~= v@);
}

/// The (name, UID) pair that a publication names.
pub open spec fn publication_node(p: NodeKeyPublication) -> (Seq<char>, Seq<char>) {
    (p.node_name@, p.node_uid@)
}

/// Publication `p` belongs to `member` of cluster `cluster_id` and was made
/// for membership revision `revision`.
pub open spec fn publication_fits(
    cluster_id: Seq<char>,
    revision: Revision,
    member: EncryptionGenerationRecipient,
    p: NodeKeyPublication,
) -> bool {
    &&& p.cluster_id@ == cluster_id
    &&& publication_node(p) == recipient_view(member)
    &&& forall|k: int|
        0 <= k < p.epochs@.len() ==> (#[trigger] p.epochs@[k]).topology_revision == revision
}

/// The content of a valid cut: a valid membership and, for each member in
/// order, one verified publication of that member.
pub open spec fn cut_content_ok(
    cluster_id: Seq<char>,
    revision: Revision,
    members: Seq<EncryptionGenerationRecipient>,
    publications: Seq<NodeKeyPublication>,
) -> bool {
    &&& membership_ok(cluster_id, revision, members)
    &&& publications.len() == members.len()
    &&& forall|a: int, b: int|
        0 <= a < b < publications.len() ==> pair_lt(
            publication_node(#[trigger] publications[a]),
            publication_node(#[trigger] publications[b]),
        )
    &&& forall|i: int|
        0 <= i < publications.len() ==> publication_ok(#[trigger] publications[i])
            && publication_fits(cluster_id, revision, members[i], publications[i])
}

/// What `NodeKeyTransparencyCut::verify` accepts.
pub open spec fn cut_ok(c: NodeKeyTransparencyCut) -> bool {
    &&& cut_content_ok(c.cluster_id@, c.membership_revision, c.members@, c.publications@)
    &&& c.schema_version == NODE_KEY_TRANSPARENCY_CUT_SCHEMA_VERSION
    &&& c.cut_digest.0@ == cut_digest_spec(c)
}

fn publication_node_lt(a: &NodeKeyPublication, b: &NodeKeyPublication) -> (r: bool)
    ensures
        r == pair_lt(publication_node(*a), publication_node(*b)),
{
    let x = EncryptionGenerationRecipient {
        node_name: a.node_name.clone(),
        node_uid: a.node_uid.clone(),
    };
    let y = EncryptionGenerationRecipient {
        node_name: b.node_name.clone(),
        node_uid: b.node_uid.clone(),
    };
    recipient_lt(&x, &y)
}

impl NodeKeyTransparencyCut {
    pub fn calculate_digest(&self) -> (d: NodeKeyTransparencyCutDigest)
        ensures
            d.0@ == cut_digest_spec(*self),
    {
        let mut m: Vec<u8> = Vec::new();
        push_text(&mut m, NODE_KEY_TRANSPARENCY_CUT_DIGEST_DOMAIN);
        push_u16(&mut m, self.schema_version);
        push_text(&mut m, self.cluster_id.as_str());
        push_u64(&mut m, self.membership_revision.0);
        push_recipients(&mut m, &self.members);
        push_publications(&mut m, &self.publications);
        assert(m@ =~= text_bytes(NODE_KEY_TRANSPARENCY_CUT_DIGEST_DOMAIN@) + cut_material(*self));
        NodeKeyTransparencyCutDigest(sha256(&m))
    }

    fn publication_fits_member(&self, i: usize) -> (r: bool)
        requires
            i < self.publications@.len(),
            i < self.members@.len(),
        ensures
            r == publication_fits(
                self.cluster_id@,
                self.membership_revision,
                self.members@[i as int],
                self.publications@[i as int],
            ),
    {
        let p = &self.publications[i];
        let m = &self.members[i];
        if !text_eq(p.cluster_id.as_str(), self.cluster_id.as_str()) || !text_eq(
            p.node_name.as_str(),
            m.node_name.as_str(),
        ) || !text_eq(p.node_uid.as_str(), m.node_uid.as_str()) {
            proof {
                if publication_fits(self.cluster_id@, self.membership_revision, *m, *p) {
                    assert(publication_node(*p).0 == recipient_view(*m).0);
                    assert(publication_node(*p).1 == recipient_view(*m).1);
                }
            }
            return false;
        }
        let mut all = true;
        let mut k: usize = 0;
        while k < p.epochs.len()
            invariant
                k <= p.epochs@.len(),
                all == forall|q: int|
                    0 <= q < k ==> (#[trigger] p.epochs@[q]).topology_revision
                        == self.membership_revision,
            decreases p.epochs@.len() - k,
        {
            if p.epochs[k].topology_revision.0 != self.membership_revision.0 {
                all = false;
            }
            k = k + 1;
        }
        all
    }

    /// Replays every public publication, exact membership coverage, topology
    /// revision, canonical order, and the domain-separated cut digest.
    pub fn verify(&self) -> (r: Result<(), NodeKeyTransparencyError>)
        ensures
            r is Ok <==> cut_ok(*self),
            !membership_ok(self.cluster_id@, self.membership_revision, self.members@) ==> (r is Err
                && r->Err_0 is InvalidMembership),
    {
        validate_membership(self.cluster_id.as_str(), self.membership_revision, &self.members)?;
        let n = self.publications.len();
        if self.schema_version != NODE_KEY_TRANSPARENCY_CUT_SCHEMA_VERSION || n
            != self.members.len() {
            return Err(NodeKeyTransparencyError::InvalidCut);
        }
        let mut i: usize = 0;
        while i < n
            invariant
                membership_ok(self.cluster_id@, self.membership_revision, self.members@),
                n == self.publications@.len(),
                n == self.members@.len(),
                i <= n,
                forall|a: int, b: int|
                    0 <= a < b < i ==> pair_lt(
                        publication_node(#[trigger] self.publications@[a]),
                        publication_node(#[trigger] self.publications@[b]),
                    ),
                forall|q: int|
                    0 <= q < i ==> publication_ok(#[trigger] self.publications@[q])
                        && publication_fits(
                        self.cluster_id@,
                        self.membership_revision,
                        self.members@[q],
                        self.publications@[q],
                    ),
            decreases n - i,
        {
            if i > 0 && !publication_node_lt(&self.publications[i - 1], &self.publications[i]) {
                return Err(NodeKeyTransparencyError::InvalidCut);
            }
            match self.publications[i].verify() {
                Ok(()) => {},
                Err(e) => {
                    return Err(NodeKeyTransparencyError::InvalidPublication(e));
                },
            }
            if !self.publication_fits_member(i) {
                return Err(NodeKeyTransparencyError::InvalidCut);
            }
            proof {
                let ps = self.publications@;
                assert forall|a: int, b: int| 0 <= a < b < i + 1 implies pair_lt(
                    publication_node(#[trigger] ps[a]),
                    publication_node(#[trigger] ps[b]),
                ) by {
                    if b == i && a < i - 1 {
                        crate::recipients::lemma_pair_lt_transitive(
                            publication_node(ps[a]),
                            publication_node(ps[i - 1]),
                            publication_node(ps[b]),
                        );
                    }
                }
            }
            i = i + 1;
        }
        let expected = self.calculate_digest();
        if !bytes32_eq(&self.cut_digest.0, &expected.0) {
            return Err(NodeKeyTransparencyError::InvalidCut);
        }
        Ok(())
    }

    fn issue(
        cluster_id: String,
        membership_revision: Revision,
        members: Vec<EncryptionGenerationRecipient>,
        publications: Vec<NodeKeyPublication>,
    ) -> (r: Result<Self, NodeKeyTransparencyError>)
        ensures
            r matches Ok(c) ==> cut_ok(c) && c.cluster_id == cluster_id && c.membership_revision
                == membership_revision && c.members@ == members@ && c.publications@
                == publications@,
            r is Ok <==> cut_content_ok(
                cluster_id@,
                membership_revision,
                members@,
                publications@,
            ),
    {
        let mut cut = NodeKeyTransparencyCut {
            schema_version: NODE_KEY_TRANSPARENCY_CUT_SCHEMA_VERSION,
            cluster_id,
            membership_revision,
            members,
            publications,
            cut_digest: NodeKeyTransparencyCutDigest([0u8; 32]),
        };
        let d = cut.calculate_digest();
        cut.cut_digest = d;
        cut.verify()?;
        Ok(cut)
    }
}

} // verus!

verus! {

/// A membership list as submitted: valid cluster identity and revision, a
/// nonempty bounded list of valid identities that names no Node twice.
pub open spec fn membership_input_ok(
    cluster_id: Seq<char>,
    membership_revision: Revision,
    members: Seq<EncryptionGenerationRecipient>,
) -> bool {
    &&& bounded_text(cluster_id, 253)
    &&& membership_revision.0 != 0
    &&& 0 < members.len() <= MAX_KEY_TRANSPARENCY_MEMBERS
    &&& recipients_view(members).no_duplicates()
    &&& forall|i: int| 0 <= i < members.len() ==> recipient_ok(#[trigger] members[i])
}

/// Sorts a submitted membership into its canonical order and validates it.
pub fn canonical_membership(
    cluster_id: &str,
    membership_revision: Revision,
    members: Vec<EncryptionGenerationRecipient>,
) -> (r: Result<Vec<EncryptionGenerationRecipient>, NodeKeyTransparencyError>)
    ensures
        r is Ok <==> membership_input_ok(cluster_id@, membership_revision, members@),
        r matches Ok(out) ==> membership_ok(cluster_id@, membership_revision, out@)
            && recipients_view(out@).to_set() == recipients_view(members@).to_set(),
        r is Err ==> r->Err_0 is InvalidMembership,
{
    let ghost input = members@;
    match canonical_recipients(members) {
        None => {
            proof {
                let i = choose|i: int, j: int|
                    0 <= i < j < input.len() && recipient_view(#[trigger] input[i])
                        == recipient_view(#[trigger] input[j]);
                let (i, j) = i;
                assert(recipients_view(input)[i] == recipient_view(input[i]));
                assert(recipients_view(input)[j] == recipient_view(input[j]));
            }
            Err(NodeKeyTransparencyError::InvalidMembership)
        },
        Some(out) => {
            proof {
                crate::recipients::lemma_canonical_recipients(input, out@);
            }
            validate_membership(cluster_id, membership_revision, &out)?;
            Ok(out)
        },
    }
}

/// Authenticated controller view that binds local key creation to one exact
/// cluster, Node UID, topology revision, and peer frontier.
#[derive(Clone, Debug)]
pub struct EncryptionKeyBootstrap {
    pub schema_version: u16,
    pub controller_epoch: u64,
    pub cluster_id: String,
    pub membership_revision: Revision,
    /// Greatest fleet epoch that a joining member must reach before a
    /// reciprocal attestation round can be complete.
    pub epoch_floor: u64,
    pub recipient: EncryptionGenerationRecipient,
    pub members: Vec<EncryptionGenerationRecipient>,
    pub bootstrap_digest: EncryptionKeyBootstrapDigest,
}

pub open spec fn bootstrap_material(b: EncryptionKeyBootstrap) -> Seq<u8> {
    u16_bytes(b.schema_version) + u64_bytes(b.controller_epoch) + text_bytes(b.cluster_id@)
        + u64_bytes(b.membership_revision.0) + u64_bytes(b.epoch_floor) + recipient_bytes(
        b.recipient,
    ) + recipients_bytes(b.members@)
}

pub open spec fn bootstrap_digest_spec(b: EncryptionKeyBootstrap) -> Seq<u8> {
    sha256_spec(text_bytes(ENCRYPTION_KEY_BOOTSTRAP_DIGEST_DOMAIN@) + bootstrap_material(b))
}

/// What `EncryptionKeyBootstrap::verify` accepts.
pub open spec fn bootstrap_ok(b: EncryptionKeyBootstrap) -> bool {
    &&& membership_ok(b.cluster_id@, b.membership_revision, b.members@)
    &&& b.schema_version == ENCRYPTION_KEY_BOOTSTRAP_SCHEMA_VERSION
    &&& b.controller_epoch != 0
    &&& b.epoch_floor != 0
    &&& recipients_view(b.members@).contains(recipient_view(b.recipient))
    &&& b.bootstrap_digest.0@ == bootstrap_digest_spec(b)
}

impl EncryptionKeyBootstrap {
    pub fn calculate_digest(&self) -> (d: EncryptionKeyBootstrapDigest)
        ensures
            d.0@ == bootstrap_digest_spec(*self),
    {
        let mut m: Vec<u8> = Vec::new();
        push_text(&mut m, ENCRYPTION_KEY_BOOTSTRAP_DIGEST_DOMAIN);
        push_u16(&mut m, self.schema_version);
        push_u64(&mut m, self.controller_epoch);
        push_text(&mut m, self.cluster_id.as_str());
        push_u64(&mut m, self.membership_revision.0);
        push_u64(&mut m, self.epoch_floor);
        push_text(&mut m, self.recipient.node_name.as_str());
        push_text(&mut m, self.recipient.node_uid.as_str());
        push_recipients(&mut m, &self.members);
        assert(m@ =~= text_bytes(ENCRYPTION_KEY_BOOTSTRAP_DIGEST_DOMAIN@) + bootstrap_material(
            *self,
        ));
        EncryptionKeyBootstrapDigest(sha256(&m))
    }

    /// Issues one Node-scoped bootstrap from a complete membership view.
    pub fn issue(
        controller_epoch: u64,
        cluster_id: String,
        membership_revision: Revision,
        epoch_floor: u64,
        recipient: EncryptionGenerationRecipient,
        members: Vec<EncryptionGenerationRecipient>,
    ) -> (r: Result<Self, NodeKeyTransparencyError>)
        ensures
            r is Ok <==> membership_input_ok(cluster_id@, membership_revision, members@)
                && controller_epoch != 0 && epoch_floor != 0 && recipients_view(members@).contains(
                recipient_view(recipient),
            ),
            !membership_input_ok(cluster_id@, membership_revision, members@) ==> (r is Err
                && r->Err_0 is InvalidMembership),
            membership_input_ok(cluster_id@, membership_revision, members@) && r is Err ==> r->Err_0 is InvalidBootstrap,
            r matches Ok(b) ==> {
                &&& bootstrap_ok(b)
                &&& b.controller_epoch == controller_epoch
                &&& b.cluster_id == cluster_id
                &&& b.membership_revision == membership_revision
                &&& b.epoch_floor == epoch_floor
                &&& b.recipient == recipient
                &&& recipients_view(b.members@).to_set() == recipients_view(members@).to_set()
            },
    {
        let ghost input = members@;
        let members = canonical_membership(cluster_id.as_str(), membership_revision, members)?;
        let found = contains_recipient(&members, &recipient);
        proof {
            let o = recipients_view(members@);
            let w = recipients_view(input);
            let x = recipient_view(recipient);
            assert(o.to_set().contains(x) == o.contains(x));
            assert(w.to_set().contains(x) == w.contains(x));
        }
        if controller_epoch == 0 || epoch_floor == 0 || found.is_none() {
            return Err(NodeKeyTransparencyError::InvalidBootstrap);
        }
        proof {
            let k = found->0;
            assert(recipients_view(members@)[k as int] == recipient_view(members@[k as int]));
        }
        let mut bootstrap = EncryptionKeyBootstrap {
            schema_version: ENCRYPTION_KEY_BOOTSTRAP_SCHEMA_VERSION,
            controller_epoch,
            cluster_id,
            membership_revision,
            epoch_floor,
            recipient,
            members,
            bootstrap_digest: EncryptionKeyBootstrapDigest([0u8; 32]),
        };
        let d = bootstrap.calculate_digest();
        bootstrap.bootstrap_digest = d;
        Ok(bootstrap)
    }

    /// Rejects schema, identity, membership, recipient, or digest mutation.
    pub fn verify(&self) -> (r: Result<(), NodeKeyTransparencyError>)
        ensures
            r is Ok <==> bootstrap_ok(*self),
            !membership_ok(self.cluster_id@, self.membership_revision, self.members@) ==> (r is Err
                && r->Err_0 is InvalidMembership),
            membership_ok(self.cluster_id@, self.membership_revision, self.members@) && r is Err
                ==> r->Err_0 is InvalidBootstrap,
    {
        validate_membership(self.cluster_id.as_str(), self.membership_revision, &self.members)?;
        let found = contains_recipient(&self.members, &self.recipient);
        proof {
            if found is Some {
                let k = found->0;
                assert(recipients_view(self.members@)[k as int] == recipient_view(self.members@[k as int]));
            }
        }
        if self.schema_version != ENCRYPTION_KEY_BOOTSTRAP_SCHEMA_VERSION || self.controller_epoch
            == 0 || self.epoch_floor == 0 || found.is_none() {
            return Err(NodeKeyTransparencyError::InvalidBootstrap);
        }
        let expected = self.calculate_digest();
        if !bytes32_eq(&self.bootstrap_digest.0, &expected.0) {
            return Err(NodeKeyTransparencyError::InvalidBootstrap);
        }
        Ok(())
    }

    /// The UIDs of every other member, canonically ordered and deduplicated.
    pub fn required_peer_uids(&self) -> (r: Vec<String>)
        ensures
            crate::text::strictly_sorted(crate::text::texts_view(r@)),
            forall|u: Seq<char>|
                crate::text::texts_view(r@).contains(u) <==> exists|i: int|
                    0 <= i < self.members@.len() && recipient_view(#[trigger] self.members@[i])
                        != recipient_view(self.recipient) && self.members@[i].node_uid@ == u,
    {
        let mut uids: Vec<String> = Vec::new();
        let mut i: usize = 0;
        while i < self.members.len()
            invariant
                i <= self.members@.len(),
                forall|u: Seq<char>|
                    crate::text::texts_view(uids@).contains(u) <==> exists|j: int|
                        0 <= j < i && recipient_view(#[trigger] self.members@[j])
                            != recipient_view(self.recipient) && self.members@[j].node_uid@ == u,
            decreases self.members@.len() - i,
        {
            let ghost before = uids@;
            if !crate::recipients::recipient_eq(&self.members[i], &self.recipient) {
                uids.push(self.members[i].node_uid.clone());
                proof {
                    assert(crate::text::texts_view(uids@) =~= crate::text::texts_view(before).push(
                        self.members@[i as int].node_uid@,
                    ));
                    assert forall|u: Seq<char>|
                        crate::text::texts_view(uids@).contains(u) <==> exists|j: int|
                            0 <= j < i + 1 && recipient_view(#[trigger] self.members@[j])
                                != recipient_view(self.recipient) && self.members@[j].node_uid@ == u by {
                        if crate::text::texts_view(uids@).contains(u) {
                            let k = choose|k: int| 0 <= k < crate::text::texts_view(uids@).len() && crate::text::texts_view(uids@)[k] == u;
                            if k < before.len() {
                                assert(crate::text::texts_view(before)[k] == u);
                                assert(crate::text::texts_view(before).contains(u));
                                let j = choose|j: int|
                                    0 <= j < i && recipient_view(#[trigger] self.members@[j])
                                        != recipient_view(self.recipient) && self.members@[j].node_uid@ == u;
                                assert(0 <= j < i + 1);
                            } else {
                                assert(recipient_view(self.members@[i as int]) != recipient_view(self.recipient));
                            }
                        }
                        if exists|j: int|
                            0 <= j < i + 1 && recipient_view(#[trigger] self.members@[j])
                                != recipient_view(self.recipient) && self.members@[j].node_uid@ == u {
                            let j = choose|j: int|
                                0 <= j < i + 1 && recipient_view(#[trigger] self.members@[j])
                                    != recipient_view(self.recipient) && self.members@[j].node_uid@ == u;
                            if j == i {
                                assert(crate::text::texts_view(uids@)[before.len() as int] == u);
                            } else {
                                assert(crate::text::texts_view(before).contains(u));
                                let k = choose|k: int| 0 <= k < crate::text::texts_view(before).len() && crate::text::texts_view(before)[k] == u;
                                assert(crate::text::texts_view(uids@)[k] == u);
                            }
                        }
                    }
                }
            } else {
                proof {
                    assert forall|u: Seq<char>|
                        crate::text::texts_view(uids@).contains(u) <==> exists|j: int|
                            0 <= j < i + 1 && recipient_view(#[trigger] self.members@[j])
                                != recipient_view(self.recipient) && self.members@[j].node_uid@ == u by {
                        if exists|j: int|
                            0 <= j < i + 1 && recipient_view(#[trigger] self.members@[j])
                                != recipient_view(self.recipient) && self.members@[j].node_uid@ == u {
                            let j = choose|j: int|
                                0 <= j < i + 1 && recipient_view(#[trigger] self.members@[j])
                                    != recipient_view(self.recipient) && self.members@[j].node_uid@ == u;
                            assert(j != i);
                        }
                        if crate::text::texts_view(uids@).contains(u) {
                            let j = choose|j: int|
                                0 <= j < i && recipient_view(#[trigger] self.members@[j])
                                    != recipient_view(self.recipient) && self.members@[j].node_uid@ == u;
                            assert(0 <= j < i + 1);
                        }
                    }
                }
            }
            i = i + 1;
        }
        let r = crate::text::canonical_text_set(uids);
        proof {
            assert forall|u: Seq<char>| crate::text::texts_view(r@).contains(u) <==> crate::text::texts_view(uids@).contains(u) by {
                assert(crate::text::texts_view(r@).to_set().contains(u) == crate::text::texts_view(r@).contains(u));
                assert(crate::text::texts_view(uids@).to_set().contains(u) == crate::text::texts_view(uids@).contains(u));
            }
        }
        r
    }
}

} // verus!

verus! {

pub open spec fn sat_sub1(x: u64) -> u64 {
    if x == 0 {
        0
    } else {
        (x - 1) as u64
    }
}

pub open spec fn sat_add1(x: u64) -> u64 {
    if x == u64::MAX {
        x
    } else {
        (x + 1) as u64
    }
}

pub open spec fn max_u64(a: u64, b: u64) -> u64 {
    if a >= b {
        a
    } else {
        b
    }
}

/// The public epoch frontier that one publication shows.
pub open spec fn publication_floor(p: NodeKeyPublication) -> u64 {
    max_u64(
        max_u64(sat_sub1(p.next_epoch), sat_add1(p.revoked_through_epoch)),
        sat_add1(p.retired_through_epoch),
    )
}

pub open spec fn entry_floor(o: Option<NodeKeyPublication>) -> u64 {
    match o {
        Some(p) => publication_floor(p),
        None => 1,
    }
}

/// The greatest frontier over the observed publications, and at least one.
pub open spec fn floor_of(v: Seq<Option<NodeKeyPublication>>) -> u64
    decreases v.len(),
{
    if v.len() == 0 {
        1
    } else {
        max_u64(floor_of(v.drop_last()), entry_floor(v.last()))
    }
}

/// The epoch floor is the least value that is at least one and covers every
/// observed publication's frontier: the last issued epoch (`next_epoch`
/// minus one), and one past both the revoked-through and the retired-through
/// epochs (saturating), so an abandoned unactivated epoch raises it. It is
/// one, or exactly one of those bounds of some publication.
pub proof fn lemma_epoch_floor_bounds(v: Seq<Option<NodeKeyPublication>>)
    ensures
        floor_of(v) >= 1,
        forall|i: int|
            #![trigger v[i]]
            0 <= i < v.len() && v[i] is Some ==> {
                let p = v[i]->0;
                &&& floor_of(v) + 1 >= p.next_epoch
                &&& floor_of(v) >= p.revoked_through_epoch
                &&& (p.revoked_through_epoch < u64::MAX ==> floor_of(v) >= p.revoked_through_epoch + 1)
                &&& floor_of(v) >= p.retired_through_epoch
                &&& (p.retired_through_epoch < u64::MAX ==> floor_of(v) >= p.retired_through_epoch + 1)
            },
        floor_of(v) == 1 || exists|i: int|
            #![trigger v[i]]
            0 <= i < v.len() && v[i] is Some && {
                let p = v[i]->0;
                ||| floor_of(v) + 1 == p.next_epoch
                ||| floor_of(v) == p.revoked_through_epoch + 1
                ||| floor_of(v) == p.retired_through_epoch + 1
                ||| floor_of(v) == u64::MAX && (p.revoked_through_epoch == u64::MAX || p.retired_through_epoch
                    == u64::MAX)
            },
    decreases v.len(),
{
    if v.len() > 0 {
        let w = v.drop_last();
        lemma_epoch_floor_bounds(w);
        assert forall|i: int| #![trigger v[i]] 0 <= i < w.len() implies v[i] == w[i] by {}
        if floor_of(v) != 1 && floor_of(v) != floor_of(w) {
            assert(v[v.len() - 1] == v.last());
        }
        if floor_of(v) == floor_of(w) && floor_of(w) != 1 {
            let i = choose|i: int|
                #![trigger w[i]]
                0 <= i < w.len() && w[i] is Some && {
                    let p = w[i]->0;
                    ||| floor_of(w) + 1 == p.next_epoch
                    ||| floor_of(w) == p.revoked_through_epoch + 1
                    ||| floor_of(w) == p.retired_through_epoch + 1
                    ||| floor_of(w) == u64::MAX && (p.revoked_through_epoch == u64::MAX
                        || p.retired_through_epoch == u64::MAX)
                };
            assert(v[i] == w[i]);
        }
    }
}

proof fn lemma_floor_monotone(a: Seq<Option<NodeKeyPublication>>, b: Seq<Option<NodeKeyPublication>>)
    requires
        a.len() == b.len(),
        forall|i: int| 0 <= i < a.len() ==> entry_floor(#[trigger] a[i]) <= entry_floor(b[i]),
    ensures
        floor_of(a) <= floor_of(b),
    decreases a.len(),
{
    if a.len() > 0 {
        assert forall|i: int| 0 <= i < a.drop_last().len() implies entry_floor(
            #[trigger] a.drop_last()[i],
        ) <= entry_floor(b.drop_last()[i]) by {
            assert(a.drop_last()[i] == a[i]);
            assert(b.drop_last()[i] == b[i]);
        }
        lemma_floor_monotone(a.drop_last(), b.drop_last());
        assert(entry_floor(a.last()) <= entry_floor(b.last()));
    }
}

/// The publication `p` was admitted over `q` without regression, so its
/// frontier is no lower.
proof fn lemma_admitted_floor(
    authenticated: AuthenticatedNodeIdentity,
    p: NodeKeyPublication,
    q: NodeKeyPublication,
)
    requires
        admission_spec(authenticated, p, Some(q)) == Ok::<PublicationAdmission, KeyAuthorityError>(
            PublicationAdmission::Accepted,
        ),
    ensures
        publication_floor(q) <= publication_floor(p),
{
}

/// The controller's exact membership and the publications admitted for it.
pub struct NodeKeyTransparencyLedger {
    cluster_id: Option<String>,
    membership_revision: Revision,
    members: Vec<EncryptionGenerationRecipient>,
    /// The admitted publication of each member, in member order.
    publications: Vec<Option<NodeKeyPublication>>,
}

/// The index of the member named `x`.
pub open spec fn member_index(members: Seq<EncryptionGenerationRecipient>, x: (Seq<char>, Seq<char>)) -> int {
    choose|i: int| 0 <= i < members.len() && recipient_view(#[trigger] members[i]) == x
}

/// A publication that the exact membership cannot admit: another cluster,
/// a Node outside the membership, or an epoch made for another revision.
pub open spec fn foreign_observation(
    cluster_id: Seq<char>,
    revision: Revision,
    members: Seq<EncryptionGenerationRecipient>,
    authenticated: AuthenticatedNodeIdentity,
    p: NodeKeyPublication,
) -> bool {
    ||| authenticated.cluster_id@ != cluster_id
    ||| !recipients_view(members).contains((authenticated.node_name@, authenticated.node_uid@))
    ||| exists|k: int| 0 <= k < p.epochs@.len() && (#[trigger] p.epochs@[k]).topology_revision != revision
}

impl NodeKeyTransparencyLedger {
    pub closed spec fn cluster_spec(&self) -> Option<Seq<char>> {
        match self.cluster_id {
            Some(c) => Some(c@),
            None => None,
        }
    }

    pub closed spec fn revision_spec(&self) -> Revision {
        self.membership_revision
    }

    pub closed spec fn members_spec(&self) -> Seq<EncryptionGenerationRecipient> {
        self.members@
    }

    pub closed spec fn publications_spec(&self) -> Seq<Option<NodeKeyPublication>> {
        self.publications@
    }

    /// The ledger invariant: a valid membership once initialized, and one
    /// slot per member holding a verified publication of that member made for
    /// the current membership revision.
    pub closed spec fn wf(&self) -> bool {
        &&& self.publications@.len() == self.members@.len()
        &&& self.membership_revision.0 == 0 ==> self.cluster_id is None && self.members@.len() == 0
        &&& self.membership_revision.0 != 0 ==> (self.cluster_id matches Some(c) && membership_ok(
            c@,
            self.membership_revision,
            self.members@,
        ))
        &&& forall|i: int|
            0 <= i < self.publications@.len() ==> (#[trigger] self.publications@[i] matches Some(p)
                ==> publication_ok(p) && (self.cluster_id matches Some(c) && publication_fits(
                c@,
                self.membership_revision,
                self.members@[i],
                p,
            )))
    }

    /// An empty, uninitialized ledger.
    pub fn new() -> (r: Self)
        ensures
            r.wf(),
            r.cluster_spec() is None,
            r.revision_spec().0 == 0,
            r.members_spec().len() == 0,
    {
        NodeKeyTransparencyLedger {
            cluster_id: None,
            membership_revision: Revision(0),
            members: Vec::new(),
            publications: Vec::new(),
        }
    }

    /// The monotonic public epoch frontier observed for this exact
    /// membership. An empty controller starts at epoch one.
    pub fn epoch_floor(&self) -> (r: u64)
        ensures
            r == floor_of(self.publications_spec()),
    {
        let mut floor: u64 = 1;
        let mut i: usize = 0;
        while i < self.publications.len()
            invariant
                i <= self.publications@.len(),
                floor == floor_of(self.publications@.take(i as int)),
            decreases self.publications@.len() - i,
        {
            let f: u64 = match &self.publications[i] {
                Some(p) => {
                    let a: u64 = if p.next_epoch == 0 {
                        0
                    } else {
                        p.next_epoch - 1
                    };
                    let b: u64 = if p.revoked_through_epoch == u64::MAX {
                        u64::MAX
                    } else {
                        p.revoked_through_epoch + 1
                    };
                    let c: u64 = if p.retired_through_epoch == u64::MAX {
                        u64::MAX
                    } else {
                        p.retired_through_epoch + 1
                    };
                    let ab = if a >= b {
                        a
                    } else {
                        b
                    };
                    if ab >= c {
                        ab
                    } else {
                        c
                    }
                },
                None => 1,
            };
            assert(self.publications@.take(i + 1).drop_last() =~= self.publications@.take(i as int));
            if f > floor {
                floor = f;
            }
            i = i + 1;
        }
        assert(self.publications@.take(i as int) =~= self.publications@);
        floor
    }
}

} // verus!

verus! {

fn copy_recipients(v: &Vec<EncryptionGenerationRecipient>) -> (r: Vec<EncryptionGenerationRecipient>)
    ensures
        r@ == v@,
{
    let mut r: Vec<EncryptionGenerationRecipient> = Vec::new();
    let mut i: usize = 0;
    while i < v.len()
        invariant
            i <= v@.len(),
            r@ == v@.take(i as int),
        decreases v@.len() - i,
    {
        r.push(v[i].duplicate());
        assert(r@ =~= v@.take(i + 1));
        i = i + 1;
    }
    assert(v@.take(i as int) =~= v@);
    r
}

impl NodeKeyTransparencyLedger {
    /// Replaces the exact membership frontier. Any real change drops all
    /// observations atomically, so publications never cross topology cuts;
    /// restating the current membership changes nothing.
    pub fn replace_membership(
        &mut self,
        cluster_id: String,
        membership_revision: Revision,
        members: Vec<EncryptionGenerationRecipient>,
    ) -> (r: Result<bool, NodeKeyTransparencyError>)
        requires
            old(self).wf(),
        ensures
            final(self).wf(),
            r == Ok::<bool, NodeKeyTransparencyError>(true) <==> membership_input_ok(
                cluster_id@,
                membership_revision,
                members@,
            ) && (old(self).revision_spec().0 == 0 || membership_revision.0
                > old(self).revision_spec().0),
            r == Ok::<bool, NodeKeyTransparencyError>(false) <==> membership_input_ok(
                cluster_id@,
                membership_revision,
                members@,
            ) && old(self).revision_spec().0 != 0 && membership_revision
                == old(self).revision_spec() && old(self).cluster_spec() == Some(cluster_id@)
                && recipients_view(old(self).members_spec()).to_set() == recipients_view(
                members@,
            ).to_set(),
            r == Ok::<bool, NodeKeyTransparencyError>(true) ==> {
                &&& final(self).cluster_spec() == Some(cluster_id@)
                &&& final(self).revision_spec() == membership_revision
                &&& recipients_view(final(self).members_spec()).to_set() == recipients_view(
                    members@,
                ).to_set()
                &&& forall|i: int|
                    0 <= i < final(self).publications_spec().len() ==> (
                    #[trigger] final(self).publications_spec()[i]) is None
            },
            r != Ok::<bool, NodeKeyTransparencyError>(true) ==> *final(self) == *old(self),
            !membership_input_ok(cluster_id@, membership_revision, members@) ==> (r is Err
                && r->Err_0 is InvalidMembership),
            membership_input_ok(cluster_id@, membership_revision, members@)
                && old(self).revision_spec().0 != 0 && membership_revision.0 < old(
                self,
            ).revision_spec().0 ==> (r is Err && r->Err_0 is MembershipRegression),
    {
        let members = canonical_membership(cluster_id.as_str(), membership_revision, members)?;
        if self.membership_revision.0 != 0 {
            if membership_revision.0 < self.membership_revision.0 {
                return Err(NodeKeyTransparencyError::MembershipRegression);
            }
            if membership_revision.0 == self.membership_revision.0 {
                let same_cluster = match &self.cluster_id {
                    Some(c) => text_eq(c.as_str(), cluster_id.as_str()),
                    None => false,
                };
                if same_cluster && crate::recipients::same_recipients(&self.members, &members) {
                    return Ok(false);
                }
                return Err(NodeKeyTransparencyError::MembershipEquivocation);
            }
        }
        let n = members.len();
        let mut publications: Vec<Option<NodeKeyPublication>> = Vec::new();
        let mut i: usize = 0;
        while i < n
            invariant
                i <= n,
                publications@.len() == i,
                forall|j: int| 0 <= j < i ==> (#[trigger] publications@[j]) is None,
            decreases n - i,
        {
            publications.push(None);
            i = i + 1;
        }
        *self = NodeKeyTransparencyLedger {
            cluster_id: Some(cluster_id),
            membership_revision,
            members,
            publications,
        };
        Ok(true)
    }

    fn member_position(&self, recipient: &EncryptionGenerationRecipient) -> (r: Option<usize>)
        requires
            self.wf(),
        ensures
            match r {
                Some(i) => i < self.members@.len() && i as int == member_index(
                    self.members@,
                    recipient_view(*recipient),
                ) && recipient_view(self.members@[i as int]) == recipient_view(*recipient)
                    && recipients_view(self.members@).contains(recipient_view(*recipient)),
                None => !recipients_view(self.members@).contains(recipient_view(*recipient)),
            },
    {
        let r = contains_recipient(&self.members, recipient);
        proof {
            if r is Some {
                let i = r->0 as int;
                assert(recipients_view(self.members@)[i] == recipient_view(self.members@[i]));
                let m = self.members@;
                let x = recipient_view(*recipient);
                let c = member_index(m, x);
                assert(0 <= c < m.len() && recipient_view(m[c]) == x);
                if c != i {
                    let w = recipients_view(m);
                    assert(w[c] == recipient_view(m[c]));
                    assert(w[i] == recipient_view(m[i]));
                    if c < i {
                        lemma_pair_lt_asymmetric(w[c], w[i]);
                    } else {
                        lemma_pair_lt_asymmetric(w[i], w[c]);
                    }
                }
            }
        }
        r
    }
}

} // verus!

verus! {

proof fn lemma_observe_accepted(
    old: NodeKeyTransparencyLedger,
    new: NodeKeyTransparencyLedger,
    i: int,
    authenticated: AuthenticatedNodeIdentity,
    p: NodeKeyPublication,
)
    requires
        old.wf(),
        old.cluster_id is Some,
        0 <= i < old.members@.len(),
        recipient_view(old.members@[i]) == (authenticated.node_name@, authenticated.node_uid@),
        authenticated.cluster_id@ == old.cluster_id->0@,
        forall|k: int|
            0 <= k < p.epochs@.len() ==> (#[trigger] p.epochs@[k]).topology_revision
                == old.membership_revision,
        admission_spec(authenticated, p, old.publications@[i]) == Ok::<
            PublicationAdmission,
            KeyAuthorityError,
        >(PublicationAdmission::Accepted),
        new.cluster_id == old.cluster_id,
        new.membership_revision == old.membership_revision,
        new.members == old.members,
        new.publications@ == old.publications@.update(i, Some(p)),
    ensures
        new.wf(),
        floor_of(old.publications@) <= floor_of(new.publications@),
{
    assert(publication_ok(p));
    assert(publication_fits(old.cluster_id->0@, old.membership_revision, old.members@[i], p));
    match old.publications@[i] {
        Some(q) => {
            lemma_admitted_floor(authenticated, p, q);
        },
        None => {},
    }
    let a = old.publications@;
    let b = new.publications@;
    assert forall|j: int| 0 <= j < a.len() implies entry_floor(#[trigger] a[j]) <= entry_floor(b[j]) by {
        if j == i {
        }
    }
    lemma_floor_monotone(a, b);
}

impl NodeKeyTransparencyLedger {
    /// Admits one authenticated public-only Node publication for the exact
    /// current membership.
    #[verifier::rlimit(60)]
    pub fn observe(
        &mut self,
        authenticated: &AuthenticatedNodeIdentity,
        publication: NodeKeyPublication,
    ) -> (r: Result<NodeKeyTransparencyOutcome, NodeKeyTransparencyError>)
        requires
            old(self).wf(),
        ensures
            final(self).wf(),
            old(self).cluster_spec() is None ==> (r is Err && r->Err_0 is Uninitialized),
            old(self).cluster_spec() matches Some(c) && foreign_observation(
                c,
                old(self).revision_spec(),
                old(self).members_spec(),
                *authenticated,
                publication,
            ) ==> (r is Err && r->Err_0 is ForeignMembership),
            old(self).cluster_spec() matches Some(c) && !foreign_observation(
                c,
                old(self).revision_spec(),
                old(self).members_spec(),
                *authenticated,
                publication,
            ) ==> {
                let i = member_index(
                    old(self).members_spec(),
                    (authenticated.node_name@, authenticated.node_uid@),
                );
                let admission = admission_spec(
                    *authenticated,
                    publication,
                    old(self).publications_spec()[i],
                );
                &&& admission is Err ==> r == Err::<
                    NodeKeyTransparencyOutcome,
                    NodeKeyTransparencyError,
                >(NodeKeyTransparencyError::InvalidPublication(admission->Err_0))
                &&& admission == Ok::<PublicationAdmission, KeyAuthorityError>(
                    PublicationAdmission::Idempotent,
                ) ==> r == Ok::<NodeKeyTransparencyOutcome, NodeKeyTransparencyError>(
                    NodeKeyTransparencyOutcome::Idempotent,
                )
                &&& admission == Ok::<PublicationAdmission, KeyAuthorityError>(
                    PublicationAdmission::Accepted,
                ) ==> r == Ok::<NodeKeyTransparencyOutcome, NodeKeyTransparencyError>(
                    NodeKeyTransparencyOutcome::Accepted,
                ) && final(self).publications_spec() == old(self).publications_spec().update(
                    i,
                    Some(publication),
                )
            },
            r != Ok::<NodeKeyTransparencyOutcome, NodeKeyTransparencyError>(
                NodeKeyTransparencyOutcome::Accepted,
            ) ==> *final(self) == *old(self),
            final(self).cluster_spec() == old(self).cluster_spec(),
            final(self).revision_spec() == old(self).revision_spec(),
            final(self).members_spec() == old(self).members_spec(),
            floor_of(old(self).publications_spec()) <= floor_of(final(self).publications_spec()),
    {
        let cluster_ok = match &self.cluster_id {
            None => {
                return Err(NodeKeyTransparencyError::Uninitialized);
            },
            Some(c) => text_eq(authenticated.cluster_id.as_str(), c.as_str()),
        };
        let recipient = EncryptionGenerationRecipient {
            node_name: authenticated.node_name.clone(),
            node_uid: authenticated.node_uid.clone(),
        };
        let position = self.member_position(&recipient);
        let mut same_revision = true;
        let mut k: usize = 0;
        while k < publication.epochs.len()
            invariant
                k <= publication.epochs@.len(),
                same_revision == forall|q: int|
                    0 <= q < k ==> (#[trigger] publication.epochs@[q]).topology_revision
                        == self.membership_revision,
            decreases publication.epochs@.len() - k,
        {
            if publication.epochs[k].topology_revision.0 != self.membership_revision.0 {
                same_revision = false;
            }
            k = k + 1;
        }
        let i = match position {
            Some(i) => i,
            None => {
                return Err(NodeKeyTransparencyError::ForeignMembership);
            },
        };
        if !cluster_ok || !same_revision {
            return Err(NodeKeyTransparencyError::ForeignMembership);
        }
        proof {
            assert(recipients_view(self.members@)[i as int] == recipient_view(self.members@[i as int]));
        }
        let previous: Option<&NodeKeyPublication> = match &self.publications[i] {
            Some(q) => Some(q),
            None => None,
        };
        let admission = admit_authenticated_publication(authenticated, &publication, previous);
        match admission {
            Err(e) => Err(NodeKeyTransparencyError::InvalidPublication(e)),
            Ok(PublicationAdmission::Idempotent) => Ok(NodeKeyTransparencyOutcome::Idempotent),
            Ok(PublicationAdmission::Accepted) => {
                let ghost old_self = *self;
                let ghost stored = publication;
                self.publications.set(i, Some(publication));
                proof {
                    lemma_observe_accepted(
                        old_self,
                        *self,
                        i as int,
                        *authenticated,
                        stored,
                    );
                }
                Ok(NodeKeyTransparencyOutcome::Accepted)
            },
        }
    }
}

} // verus!

verus! {

/// A copy of a publication verifies, fits, and orders exactly as the
/// publication it copies does.
proof fn lemma_publication_copy_same(a: NodeKeyPublication, b: NodeKeyPublication)
    requires
        crate::key_authority::publication_copy(a, b),
    ensures
        publication_ok(a) == publication_ok(b),
        publication_node(a) == publication_node(b),
        forall|c: Seq<char>, rev: Revision, m: EncryptionGenerationRecipient|
            publication_fits(c, rev, m, a) == publication_fits(c, rev, m, b),
{
    assert(crate::key_authority::publication_digest_spec(a)
        == crate::key_authority::publication_digest_spec(b));
}

/// `c` is a copy of the publication held in `slot`.
pub open spec fn slot_copy(slot: Option<NodeKeyPublication>, c: NodeKeyPublication) -> bool {
    match slot {
        Some(p) => crate::key_authority::publication_copy(c, p),
        None => false,
    }
}

proof fn lemma_complete_cut_content(l: NodeKeyTransparencyLedger, ps: Seq<NodeKeyPublication>)
    requires
        l.wf(),
        l.membership_revision.0 != 0,
        ps.len() == l.publications@.len(),
        forall|j: int|
            0 <= j < ps.len() ==> slot_copy(l.publications@[j], #[trigger] ps[j]),
    ensures
        cut_content_ok(l.cluster_id->0@, l.membership_revision, l.members@, ps),
{
    let ms = l.members@;
    let c = l.cluster_id->0@;
    assert forall|j: int| 0 <= j < ps.len() implies publication_ok(#[trigger] ps[j])
        && publication_fits(c, l.membership_revision, ms[j], ps[j]) by {
        let q = l.publications@[j]->0;
        lemma_publication_copy_same(ps[j], q);
    }
    assert forall|a: int, b: int| 0 <= a < b < ps.len() implies pair_lt(
        publication_node(#[trigger] ps[a]),
        publication_node(#[trigger] ps[b]),
    ) by {
        assert(publication_fits(c, l.membership_revision, ms[a], ps[a]));
        assert(publication_fits(c, l.membership_revision, ms[b], ps[b]));
        assert(recipients_view(ms)[a] == recipient_view(ms[a]));
        assert(recipients_view(ms)[b] == recipient_view(ms[b]));
    }
}

impl NodeKeyTransparencyLedger {
    /// The cut of the exact current membership, once every member has
    /// published; none before.
    #[verifier::rlimit(40)]
    pub fn complete_cut(&self) -> (r: Result<Option<NodeKeyTransparencyCut>, NodeKeyTransparencyError>)
        requires
            self.wf(),
        ensures
            r is Ok,
            r matches Ok(None) <==> self.revision_spec().0 == 0 || exists|i: int|
                0 <= i < self.publications_spec().len() && (#[trigger] self.publications_spec()[i]) is None,
            r matches Ok(Some(c)) ==> {
                &&& cut_ok(c)
                &&& self.cluster_spec() == Some(c.cluster_id@)
                &&& c.membership_revision == self.revision_spec()
                &&& c.members@ == self.members_spec()
                &&& c.publications@.len() == self.publications_spec().len()
                &&& forall|i: int|
                    0 <= i < c.publications@.len() ==> slot_copy(self.publications_spec()[i], #[trigger] c.publications@[i])
            },
    {
        if self.membership_revision.0 == 0 {
            return Ok(None);
        }
        let n = self.publications.len();
        let mut publications: Vec<NodeKeyPublication> = Vec::new();
        let mut i: usize = 0;
        while i < n
            invariant
                n == self.publications@.len(),
                i <= n,
                publications@.len() == i,
                forall|j: int|
                    0 <= j < i ==> slot_copy(self.publications@[j], #[trigger] publications@[j]),
            decreases n - i,
        {
            let ghost before = publications@;
            match &self.publications[i] {
                Some(p) => {
                    let q = p.duplicate();
                    assert(self.publications@[i as int] == Some(*p));
                    publications.push(q);
                    proof {
                        assert forall|j: int| 0 <= j < i + 1 implies slot_copy(self.publications@[j], #[trigger] publications@[j]) by {
                            if j < i {
                                assert(publications@[j] == before[j]);
                            }
                        }
                    }
                },
                None => {
                    return Ok(None);
                },
            }
            i = i + 1;
                }
        let cluster_id = match &self.cluster_id {
            Some(c) => c.clone(),
            None => {
                return Err(NodeKeyTransparencyError::Uninitialized);
            },
        };
        let members = copy_recipients(&self.members);
        proof {
            lemma_complete_cut_content(*self, publications@);
            assert forall|j: int| 0 <= j < n implies (#[trigger] self.publications@[j]) is Some by {
                assert(slot_copy(self.publications@[j], publications@[j]));
            }
        }
        match NodeKeyTransparencyCut::issue(cluster_id, self.membership_revision, members, publications) {
            Ok(cut) => Ok(Some(cut)),
            Err(e) => {
                proof {
                    assert(false);
                }
                Err(e)
            },
        }
    }
}

} // verus!
