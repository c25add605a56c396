use unf_encryption::ids::Revision;
use unf_encryption::key_attestation::{
    NodeKeyAttestationError, NodeKeyAttestationLedger, NodeKeyAttestationOutcome,
    NodeKeyAttestationProposal, NodeKeyAttestationRound, NodeKeyAttestationRow,
};
use unf_encryption::key_authority::{
    AuthenticatedNodeIdentity, EpochRevocationReason, KeyEpochPhase, NodeKeyAuthority,
    OsWireGuardKeyGenerator,
};
use unf_encryption::key_transparency::{NodeKeyTransparencyCut, NodeKeyTransparencyLedger};
use unf_encryption::recipients::EncryptionGenerationRecipient;

const NOW: u64 = 1_800_000_000_000;

fn recipient(name: &str) -> EncryptionGenerationRecipient {
    EncryptionGenerationRecipient {
        node_name: name.to_owned(),
        node_uid: format!("uid-{name}"),
    }
}

fn identity(member: &EncryptionGenerationRecipient) -> AuthenticatedNodeIdentity {
    AuthenticatedNodeIdentity {
        cluster_id: "cluster-a".to_owned(),
        node_name: member.node_name.clone(),
        node_uid: member.node_uid.clone(),
    }
}

fn others(members: &[EncryptionGenerationRecipient], member: &EncryptionGenerationRecipient) -> Vec<String> {
    let mut uids: Vec<String> = members
        .iter()
        .filter(|peer| peer.node_uid != member.node_uid)
        .map(|peer| peer.node_uid.clone())
        .collect();
    uids.sort();
    uids
}

fn same_proposals(a: &[NodeKeyAttestationProposal], b: &[NodeKeyAttestationProposal]) -> bool {
    a.len() == b.len()
        && a.iter().zip(b).all(|(x, y)| {
            x.recipient.node_name == y.recipient.node_name
                && x.recipient.node_uid == y.recipient.node_uid
                && x.epoch == y.epoch
                && x.barrier_digest.0 == y.barrier_digest.0
                && x.valid_from_unix_ms == y.valid_from_unix_ms
                && x.valid_until_unix_ms == y.valid_until_unix_ms
        })
}

fn same_row(a: &NodeKeyAttestationRow, b: &NodeKeyAttestationRow) -> bool {
    a.schema_version == b.schema_version
        && a.round_digest.0 == b.round_digest.0
        && a.peer.node_uid == b.peer.node_uid
        && a.peer.node_name == b.peer.node_name
        && a.row_digest.0 == b.row_digest.0
        && a.acknowledgements.len() == b.acknowledgements.len()
        && a.acknowledgements.iter().zip(&b.acknowledgements).all(|(x, y)| {
            x.peer_node_uid == y.peer_node_uid
                && x.target_node_uid == y.target_node_uid
                && x.epoch == y.epoch
                && x.barrier_digest.0 == y.barrier_digest.0
                && x.peer_public_epoch == y.peer_public_epoch
                && x.observed_at_unix_ms == y.observed_at_unix_ms
        })
}

fn prepared_fleet() -> (
    Vec<EncryptionGenerationRecipient>,
    Vec<NodeKeyAuthority>,
    NodeKeyTransparencyCut,
) {
    let members = vec![recipient("a"), recipient("b"), recipient("c")];
    let mut authorities = Vec::new();
    let mut transparency = NodeKeyTransparencyLedger::new();
    transparency
        .replace_membership("cluster-a".to_owned(), Revision::new(7), members.clone())
        .unwrap();
    for member in &members {
        let mut authority = NodeKeyAuthority::new(
            "cluster-a".to_owned(),
            member.node_name.clone(),
            member.node_uid.clone(),
        )
        .unwrap();
        authority
            .prepare_epoch(
                Revision::new(7),
                others(&members, member),
                NOW,
                NOW + 100_000,
                &mut OsWireGuardKeyGenerator,
            )
            .unwrap();
        transparency
            .observe(&identity(member), authority.publication().unwrap())
            .unwrap();
        authorities.push(authority);
    }
    let cut = transparency.complete_cut().unwrap().unwrap();
    (members, authorities, cut)
}

fn public_cut(
    members: &[EncryptionGenerationRecipient],
    authorities: &[NodeKeyAuthority],
) -> NodeKeyTransparencyCut {
    let mut transparency = NodeKeyTransparencyLedger::new();
    transparency
        .replace_membership("cluster-a".to_owned(), Revision::new(7), members.to_vec())
        .unwrap();
    for (member, authority) in members.iter().zip(authorities) {
        transparency
            .observe(&identity(member), authority.publication().unwrap())
            .unwrap();
    }
    transparency.complete_cut().unwrap().unwrap()
}

fn complete_round(transparency: &NodeKeyTransparencyCut, now: u64) -> NodeKeyAttestationLedger {
    let mut ledger = NodeKeyAttestationLedger::default();
    assert!(ledger.begin_if_needed(transparency, now).unwrap());
    let round = ledger.round().unwrap().clone();
    for member in &transparency.members {
        ledger
            .observe_row(&identity(member), round.row_for(member).unwrap(), now)
            .unwrap();
    }
    ledger
}

#[test]
fn replacement_resumes_prepared_attested_and_active_peers_without_reopening_active_cut() {
    let (members, mut authorities, transparency) = prepared_fleet();
    let first_round = complete_round(&transparency, NOW + 1);
    for index in 1..3 {
        for ack in first_round
            .complete_cut_for(&members[index])
            .unwrap()
            .unwrap()
            .acknowledgements
        {
            authorities[index]
                .acknowledge_epoch(&ack.peer_node_uid.clone(), ack, NOW + 2)
                .unwrap();
        }
    }
    authorities[2]
        .activate_epoch(1, Revision::new(7), NOW + 3, 1_000)
        .unwrap();
    let mixed = public_cut(&members, &authorities);
    let mut restarted = NodeKeyAttestationLedger::default();
    assert!(restarted.begin_if_needed(&mixed, NOW + 4).unwrap());
    let round = restarted.round().unwrap().clone();
    assert_ne!(round.round_digest.0, first_round.round().unwrap().round_digest.0);
    assert!(same_proposals(&round.proposals, &first_round.round().unwrap().proposals));
    for (member, authority) in members.iter().zip(&authorities).take(2) {
        round
            .verify_publication(&authority.publication().unwrap(), NOW + 4)
            .unwrap();
        restarted
            .observe_row(&identity(member), round.row_for(member).unwrap(), NOW + 4)
            .unwrap();
    }
    assert!(restarted.complete_cut_for(&members[0]).unwrap().is_none());
    round
        .verify_publication(&authorities[2].publication().unwrap(), NOW + 4)
        .unwrap();
    restarted
        .observe_row(&identity(&members[2]), round.row_for(&members[2]).unwrap(), NOW + 4)
        .unwrap();
    for ack in restarted
        .complete_cut_for(&members[0])
        .unwrap()
        .unwrap()
        .acknowledgements
    {
        authorities[0]
            .acknowledge_epoch(&ack.peer_node_uid.clone(), ack, NOW + 4)
            .unwrap();
    }
    for authority in &mut authorities[..2] {
        authority
            .activate_epoch(1, Revision::new(7), NOW + 5, 1_000)
            .unwrap();
    }
    let all_active = public_cut(&members, &authorities);
    assert!(!NodeKeyAttestationLedger::default()
        .begin_if_needed(&all_active, NOW + 6)
        .unwrap());
    assert!(!restarted.begin_if_needed(&all_active, NOW + 6).unwrap());
    let kept = restarted.round().unwrap();
    assert_eq!(kept.round_digest.0, round.round_digest.0);
    assert!(same_proposals(&kept.proposals, &round.proposals));
}

#[test]
fn witness_requires_retained_identity_barrier_and_live_common_epoch() {
    let (members, mut authorities, transparency) = prepared_fleet();
    let round = NodeKeyAttestationRound::issue(&transparency, NOW + 1).unwrap();
    let publication = authorities[0].publication().unwrap();
    let mut changed = round.clone();
    changed.proposals[0].valid_until_unix_ms += 1;
    changed.round_digest = changed.calculate_digest();
    assert!(changed.verify_publication(&publication, NOW + 2).is_err());
    let mut changed = round.clone();
    changed.membership_revision = Revision::new(8);
    changed.round_digest = changed.calculate_digest();
    assert!(changed.verify_publication(&publication, NOW + 2).is_err());
    assert!(round.verify_publication(&publication, NOW).is_err());
    assert!(round.verify_publication(&publication, NOW + 100_000).is_err());
    let (_, replacement, _) = prepared_fleet();
    assert!(round
        .verify_publication(&replacement[0].publication().unwrap(), NOW + 2)
        .is_err());
    let foreign = NodeKeyAuthority::new(
        "cluster-a".to_owned(),
        "a".to_owned(),
        "replacement-uid".to_owned(),
    )
    .unwrap();
    assert!(round
        .verify_publication(&foreign.publication().unwrap(), NOW + 2)
        .is_err());
    authorities[0]
        .revoke_through(1, EpochRevocationReason::FleetEpochSuperseded, NOW + 2)
        .unwrap();
    assert!(round
        .verify_publication(&authorities[0].publication().unwrap(), NOW + 2)
        .is_err());
    let incomplete = public_cut(&members, &authorities);
    assert!(!NodeKeyAttestationLedger::default()
        .begin_if_needed(&incomplete, NOW + 3)
        .unwrap());
    assert!(!NodeKeyAttestationLedger::default()
        .begin_if_needed(&transparency, NOW + 100_000)
        .unwrap());
}

#[test]
fn draining_predecessor_cannot_witness_a_reconstructed_round() {
    let (members, mut authorities, first) = prepared_fleet();
    let first_round = complete_round(&first, NOW + 1);
    for (member, authority) in members.iter().zip(&mut authorities) {
        for ack in first_round
            .complete_cut_for(member)
            .unwrap()
            .unwrap()
            .acknowledgements
        {
            authority
                .acknowledge_epoch(&ack.peer_node_uid.clone(), ack, NOW + 2)
                .unwrap();
        }
        authority
            .activate_epoch(1, Revision::new(7), NOW + 3, 1_000)
            .unwrap();
        authority
            .prepare_epoch(
                Revision::new(7),
                others(&members, member),
                NOW + 4,
                NOW + 200_000,
                &mut OsWireGuardKeyGenerator,
            )
            .unwrap();
    }
    let successor = complete_round(&public_cut(&members, &authorities), NOW + 5);
    for ack in successor
        .complete_cut_for(&members[0])
        .unwrap()
        .unwrap()
        .acknowledgements
    {
        authorities[0]
            .acknowledge_epoch(&ack.peer_node_uid.clone(), ack, NOW + 6)
            .unwrap();
    }
    authorities[0]
        .activate_epoch(2, Revision::new(7), NOW + 7, 1_000)
        .unwrap();
    assert!(first_round
        .round()
        .unwrap()
        .verify_publication(&authorities[0].publication().unwrap(), NOW + 8)
        .is_err());
    let recovered =
        NodeKeyAttestationRound::issue(&public_cut(&members, &authorities), NOW + 8).unwrap();
    assert!(recovered.proposals.iter().all(|proposal| proposal.epoch == 2));
    assert!(recovered
        .verify_publication(&authorities[0].publication().unwrap(), NOW + 8)
        .is_ok());
}

#[test]
fn reciprocal_witness_matrix_releases_only_complete_columns() {
    let (members, mut authorities, transparency) = prepared_fleet();
    let mut ledger = NodeKeyAttestationLedger::default();
    ledger.begin_if_needed(&transparency, NOW + 1).unwrap();
    let round = ledger.round().unwrap().clone();
    for member in &members[..2] {
        ledger
            .observe_row(&identity(member), round.row_for(member).unwrap(), NOW + 2)
            .unwrap();
    }
    assert!(ledger.complete_cut_for(&members[0]).unwrap().is_none());
    ledger
        .observe_row(&identity(&members[2]), round.row_for(&members[2]).unwrap(), NOW + 2)
        .unwrap();

    for (member, authority) in members.iter().zip(&mut authorities) {
        let cut = ledger.complete_cut_for(member).unwrap().unwrap();
        cut.verify().unwrap();
        for acknowledgement in cut.acknowledgements {
            authority
                .acknowledge_epoch(&acknowledgement.peer_node_uid.clone(), acknowledgement, NOW + 2)
                .unwrap();
        }
        assert_eq!(authority.epochs()[0].phase(), KeyEpochPhase::MutuallyAttested);
    }
}

#[test]
fn reciprocal_witness_rows_are_restart_stable_authenticated_and_frozen() {
    let (members, _authorities, transparency) = prepared_fleet();
    let mut ledger = NodeKeyAttestationLedger::default();
    ledger.begin_if_needed(&transparency, NOW + 1).unwrap();
    let round = ledger.round().unwrap().clone();
    let row = round.row_for(&members[0]).unwrap();
    assert!(same_row(&row, &round.row_for(&members[0]).unwrap()));
    assert!(matches!(
        ledger.observe_row(&identity(&members[1]), row.clone(), NOW + 2),
        Err(NodeKeyAttestationError::UnauthenticatedOrExpiredRow)
    ));
    assert_eq!(
        ledger
            .observe_row(&identity(&members[0]), row.clone(), NOW + 2)
            .unwrap(),
        NodeKeyAttestationOutcome::Accepted
    );
    assert_eq!(
        ledger.observe_row(&identity(&members[0]), row, NOW + 2).unwrap(),
        NodeKeyAttestationOutcome::Idempotent
    );
    assert!(!ledger.begin_if_needed(&transparency, NOW + 3).unwrap());
}

#[test]
fn complete_successor_epoch_opens_a_new_round_without_membership_churn() {
    let (members, mut authorities, first_transparency) = prepared_fleet();
    let mut attestations = NodeKeyAttestationLedger::default();
    attestations
        .begin_if_needed(&first_transparency, NOW + 1)
        .unwrap();
    let first_round = attestations.round().unwrap().clone();
    for member in &members {
        attestations
            .observe_row(&identity(member), first_round.row_for(member).unwrap(), NOW + 2)
            .unwrap();
    }
    for (member, authority) in members.iter().zip(&mut authorities) {
        let cut = attestations.complete_cut_for(member).unwrap().unwrap();
        for acknowledgement in cut.acknowledgements {
            authority
                .acknowledge_epoch(&acknowledgement.peer_node_uid.clone(), acknowledgement, NOW + 2)
                .unwrap();
        }
        authority
            .activate_epoch(1, Revision::new(7), NOW + 3, 1_000)
            .unwrap();
        authority
            .prepare_epoch(
                Revision::new(7),
                others(&members, member),
                NOW + 4,
                NOW + 200_000,
                &mut OsWireGuardKeyGenerator,
            )
            .unwrap();
    }

    let mut transparency = NodeKeyTransparencyLedger::new();
    transparency
        .replace_membership("cluster-a".to_owned(), Revision::new(7), members.clone())
        .unwrap();
    for (member, authority) in members.iter().zip(&authorities) {
        transparency
            .observe(&identity(member), authority.publication().unwrap())
            .unwrap();
    }
    let successor = transparency.complete_cut().unwrap().unwrap();
    assert!(attestations.begin_if_needed(&successor, NOW + 5).unwrap());
    assert!(attestations
        .round()
        .unwrap()
        .proposals
        .iter()
        .all(|proposal| proposal.epoch == 2));
}

#[test]
fn attestation_ledger_requires_a_round_and_rejects_foreign_rows() {
    let (members, _authorities, transparency) = prepared_fleet();
    let mut ledger = NodeKeyAttestationLedger::default();
    assert!(matches!(
        ledger.complete_cut_for(&members[0]),
        Err(NodeKeyAttestationError::Uninitialized)
    ));
    let round = NodeKeyAttestationRound::issue(&transparency, NOW + 1).unwrap();
    let row = round.row_for(&members[0]).unwrap();
    assert!(matches!(
        ledger.observe_row(&identity(&members[0]), row, NOW + 2),
        Err(NodeKeyAttestationError::Uninitialized)
    ));
    assert!(ledger.begin_if_needed(&transparency, NOW + 1).unwrap());
    assert!(matches!(
        ledger.complete_cut_for(&recipient("z")),
        Err(NodeKeyAttestationError::ForeignPeer)
    ));
    assert!(matches!(
        round.row_for(&recipient("z")),
        Err(NodeKeyAttestationError::ForeignPeer)
    ));
    assert!(matches!(
        NodeKeyAttestationRound::issue(&transparency, 0),
        Err(NodeKeyAttestationError::InvalidRound)
    ));
}
