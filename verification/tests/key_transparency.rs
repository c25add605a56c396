use unf_encryption::ids::Revision;
use unf_encryption::key_authority::{
    AuthenticatedNodeIdentity, KeyAuthorityError, NodeKeyAuthority, NodeKeyPublication,
    WireGuardKeyGenerator,
};
use unf_encryption::key_transparency::{
    NodeKeyTransparencyError, NodeKeyTransparencyLedger, NodeKeyTransparencyOutcome,
};
use unf_encryption::keys::WireGuardPrivateKey;
use unf_encryption::recipients::EncryptionGenerationRecipient;

const NOW: u64 = 1_000_000;

struct FixedGenerator {
    next: u8,
}

impl WireGuardKeyGenerator for FixedGenerator {
    fn generate(&mut self) -> Result<WireGuardPrivateKey, KeyAuthorityError> {
        let key = WireGuardPrivateKey::from_bytes([self.next; 32])?;
        self.next = self.next.saturating_add(1);
        Ok(key)
    }
}

fn transparency_publication(
    node_name: &str,
    node_uid: &str,
    key_byte: u8,
    topology_revision: Revision,
) -> (AuthenticatedNodeIdentity, NodeKeyPublication) {
    let mut authority =
        NodeKeyAuthority::new("cluster-a".to_owned(), node_name.to_owned(), node_uid.to_owned())
            .unwrap();
    authority
        .prepare_epoch(
            topology_revision,
            Vec::new(),
            NOW,
            NOW + 10_000,
            &mut FixedGenerator { next: key_byte },
        )
        .unwrap();
    (
        AuthenticatedNodeIdentity {
            cluster_id: "cluster-a".to_owned(),
            node_name: node_name.to_owned(),
            node_uid: node_uid.to_owned(),
        },
        authority.publication().unwrap(),
    )
}

#[test]
fn public_key_transparency_requires_the_complete_exact_membership_cut() {
    let revision = Revision::new(7);
    let (identity_a, publication_a) = transparency_publication("worker-a", "uid-a", 21, revision);
    let (identity_b, publication_b) = transparency_publication("worker-b", "uid-b", 22, revision);
    let members = vec![
        EncryptionGenerationRecipient {
            node_name: "worker-b".to_owned(),
            node_uid: "uid-b".to_owned(),
        },
        EncryptionGenerationRecipient {
            node_name: "worker-a".to_owned(),
            node_uid: "uid-a".to_owned(),
        },
    ];
    let mut ledger = NodeKeyTransparencyLedger::new();
    ledger
        .replace_membership("cluster-a".to_owned(), revision, members.clone())
        .unwrap();
    assert_eq!(
        ledger.observe(&identity_a, publication_a).unwrap(),
        NodeKeyTransparencyOutcome::Accepted
    );
    assert!(ledger.complete_cut().unwrap().is_none());
    assert_eq!(
        ledger.observe(&identity_b, publication_b).unwrap(),
        NodeKeyTransparencyOutcome::Accepted
    );
    let cut = ledger.complete_cut().unwrap().unwrap();
    cut.verify().unwrap();
    let names: Vec<&str> = cut.members.iter().map(|member| member.node_name.as_str()).collect();
    assert_eq!(names, vec!["worker-a", "worker-b"]);
    assert_eq!(cut.publications.len(), 2);
}

#[test]
fn public_key_transparency_clears_on_membership_change_and_refuses_replacement() {
    let revision = Revision::new(7);
    let member = EncryptionGenerationRecipient {
        node_name: "worker-a".to_owned(),
        node_uid: "uid-a".to_owned(),
    };
    let (identity, publication) = transparency_publication("worker-a", "uid-a", 31, revision);
    let mut ledger = NodeKeyTransparencyLedger::new();
    assert!(ledger
        .replace_membership("cluster-a".to_owned(), revision, vec![member.clone()])
        .unwrap());
    assert_eq!(
        ledger.observe(&identity, publication.clone()).unwrap(),
        NodeKeyTransparencyOutcome::Accepted
    );
    assert_eq!(
        ledger.observe(&identity, publication).unwrap(),
        NodeKeyTransparencyOutcome::Idempotent
    );
    assert!(ledger.complete_cut().unwrap().is_some());
    assert!(ledger
        .replace_membership("cluster-a".to_owned(), revision.next(), vec![member.clone()])
        .unwrap());
    assert!(ledger.complete_cut().unwrap().is_none());

    let (replacement, replacement_publication) =
        transparency_publication("worker-a", "replacement-uid", 32, revision.next());
    assert!(matches!(
        ledger.observe(&replacement, replacement_publication),
        Err(NodeKeyTransparencyError::ForeignMembership)
    ));
    assert!(matches!(
        ledger.replace_membership("cluster-a".to_owned(), revision, vec![member]),
        Err(NodeKeyTransparencyError::MembershipRegression)
    ));
}
