//! Determinism of contract issuance: the same inputs issue the same contract
//! field by field, so an issued contract replays.

use vstd::prelude::*;
use crate::contract::{
    replayed_as,
    contract_head_enc, contract_material, contract_digest_spec,
    issued_as, contract_compiled, contract_same, AttestedEncryptionPathContract,
    canonical_facts, contract_input_error, endpoint_conflict, endpoints_conflict, node_canonical_of, plan_inputs,
    EncryptionContractFacts, EncryptionKeyFact,
    plans_conflict,
    concat_enc, list_enc, plan_head_enc, plan_policy_enc, plan_binding_enc, Encode, envelope_of, envelope_same,
    envelope_enc, observation_same, observation_for, failure_classes, EncryptionFailureEnvelope,
    plan_same,
    allowed_ips_disjoint,
    plan_stage_ok, plan_stage_error, EncryptionContractError,
    first_plan_error, index_pairs, is_plan_source, plan_pairs, plans_built_for, row_index_pairs, wanted_count,
    has_unique_path, has_unique_policy, path_error, plan_built, plan_error, plan_wanted, unique_path, unique_path_at,
    unique_policy, unique_policy_at, node_same, AttestedEncryptionPathPlan, EncryptionNode, PlanInputs,
    policy_canonical_of, policy_drawn_from, policy_kept_in, policies_canonical_of, EncryptionPolicyFact,
    path_canonical_of, path_drawn_from, path_kept_in, paths_canonical_of, path_same, EncryptionPathFact,
    endpoint_canonical_of, endpoint_drawn_from, endpoint_kept_in, endpoint_same, endpoints_canonical_of,
    lemma_canonical_node_same, lemma_text_key, EncryptionEndpointFact,
};
use crate::sorting::{sorted_by_key, Keyed, key_eq, key_found_in, keys_distinct, lemma_key_triple, lemma_sorted_keys_align, lemma_sorted_unique};
use crate::text::{text_lt, texts_view};
use crate::ids::{IdentityId, Revision};
use vstd::seq_lib::{to_multiset_contains, to_multiset_len, to_multiset_remove};

verus! {

proof fn lemma_text_irreflexive(a: Seq<char>)
    ensures
        !text_lt(a, a),
{
    lemma_text_key(a, a, a);
}

/// Equal canonical forms of one endpoint.
proof fn lemma_endpoint_canonical_same(x: EncryptionEndpointFact, y: EncryptionEndpointFact, e: EncryptionEndpointFact)
    requires
        endpoint_canonical_of(x, e),
        endpoint_canonical_of(y, e),
    ensures
        endpoint_same(x, y),
{
    lemma_canonical_node_same(x.node, e.node, y.node, e.node);
}

proof fn lemma_endpoint_canonical_key(x: EncryptionEndpointFact, e: EncryptionEndpointFact)
    requires
        x.identity == e.identity,
        x.workload_uid@ == e.workload_uid@,
        x.node.uid@ == e.node.uid@,
    ensures
        key_eq(x, e),
{
    lemma_text_irreflexive(x.workload_uid@);
    lemma_text_irreflexive(x.node.uid@);
}

#[verifier::spinoff_prover]
proof fn lemma_endpoints_keys_found(o1: Seq<EncryptionEndpointFact>, o2: Seq<EncryptionEndpointFact>, v: Seq<EncryptionEndpointFact>)
    requires
        forall|i: int| 0 <= i < o1.len() ==> endpoint_drawn_from(#[trigger] o1[i], v),
        forall|j: int| 0 <= j < v.len() ==> endpoint_kept_in(#[trigger] v[j], o2),
    ensures
        forall|i: int| 0 <= i < o1.len() ==> key_found_in(#[trigger] o1[i], o2),
{
    reveal(endpoint_drawn_from);
    reveal(endpoint_kept_in);
    assert forall|i: int| 0 <= i < o1.len() implies key_found_in(#[trigger] o1[i], o2) by {
        assert(endpoint_drawn_from(o1[i], v));
        let j = choose|j: int| 0 <= j < v.len() && endpoint_canonical_of(o1[i], v[j]);
        assert(endpoint_kept_in(v[j], o2));
        let m = choose|m: int| 0 <= m < o2.len() && endpoint_canonical_of(o2[m], v[j]);
        lemma_endpoint_canonical_key(o1[i], v[j]);
        lemma_endpoint_canonical_key(o2[m], v[j]);
        lemma_key_triple(o1[i], v[j], o2[m]);
        lemma_key_triple(o2[m], v[j], o1[i]);
        assert(key_eq(o1[i], o2[m]));
    }
}

#[verifier::spinoff_prover]
proof fn lemma_endpoints_at_same(o1: Seq<EncryptionEndpointFact>, o2: Seq<EncryptionEndpointFact>, v: Seq<EncryptionEndpointFact>, i: int)
    requires
        endpoint_drawn_from(o1[i], v),
        endpoint_drawn_from(o2[i], v),
        keys_distinct(v),
        0 <= i < o1.len(),
        i < o2.len(),
        key_eq(o1[i], o2[i]),
    ensures
        endpoint_same(o1[i], o2[i]),
{
    reveal(endpoint_drawn_from);
    let a = choose|a: int| 0 <= a < v.len() && endpoint_canonical_of(o1[i], v[a]);
    let b = choose|b: int| 0 <= b < v.len() && endpoint_canonical_of(o2[i], v[b]);
    lemma_endpoint_canonical_key(o1[i], v[a]);
    lemma_endpoint_canonical_key(o2[i], v[b]);
    lemma_key_triple(v[a], o1[i], o2[i]);
    lemma_key_triple(o1[i], o2[i], v[b]);
    lemma_key_triple(v[a], o2[i], v[b]);
    lemma_key_triple(o1[i], v[a], o2[i]);
    lemma_key_triple(v[b], v[a], v[a]);
    if a < b {
        assert(!key_eq(v[a], v[b]));
    } else if b < a {
        assert(!key_eq(v[b], v[a]));
    }
    lemma_endpoint_canonical_same(o1[i], o2[i], v[a]);
}

#[verifier::spinoff_prover]
proof fn lemma_endpoints_all_same(o1: Seq<EncryptionEndpointFact>, o2: Seq<EncryptionEndpointFact>, v: Seq<EncryptionEndpointFact>)
    requires
        o1.len() == o2.len(),
        forall|i: int| 0 <= i < o1.len() ==> endpoint_drawn_from(#[trigger] o1[i], v),
        forall|i: int| 0 <= i < o2.len() ==> endpoint_drawn_from(#[trigger] o2[i], v),
        forall|i: int| 0 <= i < o1.len() ==> key_eq(#[trigger] o1[i], o2[i]),
        keys_distinct(v),
    ensures
        forall|i: int| 0 <= i < o1.len() ==> endpoint_same(#[trigger] o1[i], o2[i]),
{
    assert forall|i: int| 0 <= i < o1.len() implies endpoint_same(#[trigger] o1[i], o2[i]) by {
        assert(endpoint_drawn_from(o1[i], v));
        assert(endpoint_drawn_from(o2[i], v));
        lemma_endpoints_at_same(o1, o2, v, i);
    }
}

/// Two canonical forms of the same endpoint facts agree position by
/// position.
#[verifier::spinoff_prover]
pub proof fn lemma_endpoints_canonical_same(o1: Seq<EncryptionEndpointFact>, o2: Seq<EncryptionEndpointFact>, v: Seq<EncryptionEndpointFact>)
    requires
        endpoints_canonical_of(o1, v),
        endpoints_canonical_of(o2, v),
        keys_distinct(v),
    ensures
        o1.len() == o2.len(),
        forall|i: int| 0 <= i < o1.len() ==> endpoint_same(#[trigger] o1[i], o2[i]),
{
    lemma_endpoints_keys_found(o1, o2, v);
    lemma_endpoints_keys_found(o2, o1, v);
    lemma_sorted_keys_align(o1, o2);
    lemma_endpoints_all_same(o1, o2, v);
}

/// Field-wise equality of two policy facts.
pub open spec fn policy_same(a: EncryptionPolicyFact, b: EncryptionPolicyFact) -> bool {
    &&& a.source == b.source
    &&& a.destination == b.destination
    &&& a.allowed == b.allowed
    &&& a.policy_ids@ == b.policy_ids@
}

/// Equal canonical forms of one policy fact.
proof fn lemma_policy_canonical_same(x: EncryptionPolicyFact, y: EncryptionPolicyFact, e: EncryptionPolicyFact)
    requires
        policy_canonical_of(x, e),
        policy_canonical_of(y, e),
    ensures
        policy_same(x, y),
{
    lemma_sorted_unique(x.policy_ids@, y.policy_ids@);
}

proof fn lemma_policy_canonical_key(x: EncryptionPolicyFact, e: EncryptionPolicyFact)
    requires
        x.source == e.source,
        x.destination == e.destination,
    ensures
        key_eq(x, e),
{
}

#[verifier::spinoff_prover]
proof fn lemma_policies_keys_found(o1: Seq<EncryptionPolicyFact>, o2: Seq<EncryptionPolicyFact>, v: Seq<EncryptionPolicyFact>)
    requires
        forall|i: int| 0 <= i < o1.len() ==> policy_drawn_from(#[trigger] o1[i], v),
        forall|j: int| 0 <= j < v.len() ==> policy_kept_in(#[trigger] v[j], o2),
    ensures
        forall|i: int| 0 <= i < o1.len() ==> key_found_in(#[trigger] o1[i], o2),
{
    reveal(policy_drawn_from);
    reveal(policy_kept_in);
    assert forall|i: int| 0 <= i < o1.len() implies key_found_in(#[trigger] o1[i], o2) by {
        assert(policy_drawn_from(o1[i], v));
        let j = choose|j: int| 0 <= j < v.len() && policy_canonical_of(o1[i], v[j]);
        assert(policy_kept_in(v[j], o2));
        let m = choose|m: int| 0 <= m < o2.len() && policy_canonical_of(o2[m], v[j]);
        lemma_policy_canonical_key(o1[i], v[j]);
        lemma_policy_canonical_key(o2[m], v[j]);
        lemma_key_triple(o1[i], v[j], o2[m]);
        lemma_key_triple(o2[m], v[j], o1[i]);
        assert(key_eq(o1[i], o2[m]));
    }
}

#[verifier::spinoff_prover]
proof fn lemma_policies_at_same(o1: Seq<EncryptionPolicyFact>, o2: Seq<EncryptionPolicyFact>, v: Seq<EncryptionPolicyFact>, i: int)
    requires
        policy_drawn_from(o1[i], v),
        policy_drawn_from(o2[i], v),
        keys_distinct(v),
        0 <= i < o1.len(),
        i < o2.len(),
        key_eq(o1[i], o2[i]),
    ensures
        policy_same(o1[i], o2[i]),
{
    reveal(policy_drawn_from);
    let a = choose|a: int| 0 <= a < v.len() && policy_canonical_of(o1[i], v[a]);
    let b = choose|b: int| 0 <= b < v.len() && policy_canonical_of(o2[i], v[b]);
    lemma_policy_canonical_key(o1[i], v[a]);
    lemma_policy_canonical_key(o2[i], v[b]);
    lemma_key_triple(v[a], o1[i], o2[i]);
    lemma_key_triple(o1[i], o2[i], v[b]);
    lemma_key_triple(v[a], o2[i], v[b]);
    lemma_key_triple(o1[i], v[a], o2[i]);
    lemma_key_triple(v[b], v[a], v[a]);
    if a < b {
        assert(!key_eq(v[a], v[b]));
    } else if b < a {
        assert(!key_eq(v[b], v[a]));
    }
    lemma_policy_canonical_same(o1[i], o2[i], v[a]);
}

#[verifier::spinoff_prover]
proof fn lemma_policies_all_same(o1: Seq<EncryptionPolicyFact>, o2: Seq<EncryptionPolicyFact>, v: Seq<EncryptionPolicyFact>)
    requires
        o1.len() == o2.len(),
        forall|i: int| 0 <= i < o1.len() ==> policy_drawn_from(#[trigger] o1[i], v),
        forall|i: int| 0 <= i < o2.len() ==> policy_drawn_from(#[trigger] o2[i], v),
        forall|i: int| 0 <= i < o1.len() ==> key_eq(#[trigger] o1[i], o2[i]),
        keys_distinct(v),
    ensures
        forall|i: int| 0 <= i < o1.len() ==> policy_same(#[trigger] o1[i], o2[i]),
{
    assert forall|i: int| 0 <= i < o1.len() implies policy_same(#[trigger] o1[i], o2[i]) by {
        assert(policy_drawn_from(o1[i], v));
        assert(policy_drawn_from(o2[i], v));
        lemma_policies_at_same(o1, o2, v, i);
    }
}

/// Two canonical forms of the same policy facts agree position by
/// position.
#[verifier::spinoff_prover]
pub proof fn lemma_policies_canonical_same(o1: Seq<EncryptionPolicyFact>, o2: Seq<EncryptionPolicyFact>, v: Seq<EncryptionPolicyFact>)
    requires
        policies_canonical_of(o1, v),
        policies_canonical_of(o2, v),
        keys_distinct(v),
    ensures
        o1.len() == o2.len(),
        forall|i: int| 0 <= i < o1.len() ==> policy_same(#[trigger] o1[i], o2[i]),
{
    lemma_policies_keys_found(o1, o2, v);
    lemma_policies_keys_found(o2, o1, v);
    lemma_sorted_keys_align(o1, o2);
    lemma_policies_all_same(o1, o2, v);
}

/// Equal canonical forms of one path fact.
proof fn lemma_path_canonical_same(x: EncryptionPathFact, y: EncryptionPathFact, e: EncryptionPathFact)
    requires
        path_canonical_of(x, e),
        path_canonical_of(y, e),
    ensures
        path_same(x, y),
{
    lemma_sorted_unique(x.allowed_ips@, y.allowed_ips@);
}

proof fn lemma_path_canonical_key(x: EncryptionPathFact, e: EncryptionPathFact)
    requires
        x.source_node_uid@ == e.source_node_uid@,
        x.destination_node_uid@ == e.destination_node_uid@,
        x.epoch == e.epoch,
    ensures
        key_eq(x, e),
{
    lemma_text_irreflexive(x.source_node_uid@);
    lemma_text_irreflexive(x.destination_node_uid@);
}

#[verifier::spinoff_prover]
proof fn lemma_paths_keys_found(o1: Seq<EncryptionPathFact>, o2: Seq<EncryptionPathFact>, v: Seq<EncryptionPathFact>)
    requires
        forall|i: int| 0 <= i < o1.len() ==> path_drawn_from(#[trigger] o1[i], v),
        forall|j: int| 0 <= j < v.len() ==> path_kept_in(#[trigger] v[j], o2),
    ensures
        forall|i: int| 0 <= i < o1.len() ==> key_found_in(#[trigger] o1[i], o2),
{
    reveal(path_drawn_from);
    reveal(path_kept_in);
    assert forall|i: int| 0 <= i < o1.len() implies key_found_in(#[trigger] o1[i], o2) by {
        assert(path_drawn_from(o1[i], v));
        let j = choose|j: int| 0 <= j < v.len() && path_canonical_of(o1[i], v[j]);
        assert(path_kept_in(v[j], o2));
        let m = choose|m: int| 0 <= m < o2.len() && path_canonical_of(o2[m], v[j]);
        lemma_path_canonical_key(o1[i], v[j]);
        lemma_path_canonical_key(o2[m], v[j]);
        lemma_key_triple(o1[i], v[j], o2[m]);
        lemma_key_triple(o2[m], v[j], o1[i]);
        assert(key_eq(o1[i], o2[m]));
    }
}

#[verifier::spinoff_prover]
proof fn lemma_paths_at_same(o1: Seq<EncryptionPathFact>, o2: Seq<EncryptionPathFact>, v: Seq<EncryptionPathFact>, i: int)
    requires
        path_drawn_from(o1[i], v),
        path_drawn_from(o2[i], v),
        keys_distinct(v),
        0 <= i < o1.len(),
        i < o2.len(),
        key_eq(o1[i], o2[i]),
    ensures
        path_same(o1[i], o2[i]),
{
    reveal(path_drawn_from);
    let a = choose|a: int| 0 <= a < v.len() && path_canonical_of(o1[i], v[a]);
    let b = choose|b: int| 0 <= b < v.len() && path_canonical_of(o2[i], v[b]);
    lemma_path_canonical_key(o1[i], v[a]);
    lemma_path_canonical_key(o2[i], v[b]);
    lemma_key_triple(v[a], o1[i], o2[i]);
    lemma_key_triple(o1[i], o2[i], v[b]);
    lemma_key_triple(v[a], o2[i], v[b]);
    lemma_key_triple(o1[i], v[a], o2[i]);
    lemma_key_triple(v[b], v[a], v[a]);
    if a < b {
        assert(!key_eq(v[a], v[b]));
    } else if b < a {
        assert(!key_eq(v[b], v[a]));
    }
    lemma_path_canonical_same(o1[i], o2[i], v[a]);
}

#[verifier::spinoff_prover]
proof fn lemma_paths_all_same(o1: Seq<EncryptionPathFact>, o2: Seq<EncryptionPathFact>, v: Seq<EncryptionPathFact>)
    requires
        o1.len() == o2.len(),
        forall|i: int| 0 <= i < o1.len() ==> path_drawn_from(#[trigger] o1[i], v),
        forall|i: int| 0 <= i < o2.len() ==> path_drawn_from(#[trigger] o2[i], v),
        forall|i: int| 0 <= i < o1.len() ==> key_eq(#[trigger] o1[i], o2[i]),
        keys_distinct(v),
    ensures
        forall|i: int| 0 <= i < o1.len() ==> path_same(#[trigger] o1[i], o2[i]),
{
    assert forall|i: int| 0 <= i < o1.len() implies path_same(#[trigger] o1[i], o2[i]) by {
        assert(path_drawn_from(o1[i], v));
        assert(path_drawn_from(o2[i], v));
        lemma_paths_at_same(o1, o2, v, i);
    }
}

/// Two canonical forms of the same path facts agree position by
/// position.
#[verifier::spinoff_prover]
pub proof fn lemma_paths_canonical_same(o1: Seq<EncryptionPathFact>, o2: Seq<EncryptionPathFact>, v: Seq<EncryptionPathFact>)
    requires
        paths_canonical_of(o1, v),
        paths_canonical_of(o2, v),
        keys_distinct(v),
    ensures
        o1.len() == o2.len(),
        forall|i: int| 0 <= i < o1.len() ==> path_same(#[trigger] o1[i], o2[i]),
{
    lemma_paths_keys_found(o1, o2, v);
    lemma_paths_keys_found(o2, o1, v);
    lemma_sorted_keys_align(o1, o2);
    lemma_paths_all_same(o1, o2, v);
}

/// Two endpoint lists that agree position by position.
pub open spec fn endpoints_same(a: Seq<EncryptionEndpointFact>, b: Seq<EncryptionEndpointFact>) -> bool {
    &&& a.len() == b.len()
    &&& forall|i: int| 0 <= i < a.len() ==> endpoint_same(#[trigger] a[i], b[i])
}

/// Two policy fact lists that agree position by position.
pub open spec fn policies_same(a: Seq<EncryptionPolicyFact>, b: Seq<EncryptionPolicyFact>) -> bool {
    &&& a.len() == b.len()
    &&& forall|i: int| 0 <= i < a.len() ==> policy_same(#[trigger] a[i], b[i])
}

/// Two path fact lists that agree position by position.
pub open spec fn paths_same(a: Seq<EncryptionPathFact>, b: Seq<EncryptionPathFact>) -> bool {
    &&& a.len() == b.len()
    &&& forall|i: int| 0 <= i < a.len() ==> path_same(#[trigger] a[i], b[i])
}

/// Plan inputs that agree field by field.
pub open spec fn inputs_same(x: PlanInputs, y: PlanInputs) -> bool {
    &&& x.model == y.model
    &&& x.revisions == y.revisions
    &&& x.active_epoch == y.active_epoch
    &&& policies_same(x.policies, y.policies)
    &&& x.keys == y.keys
    &&& paths_same(x.paths, y.paths)
    &&& x.valid_from_unix_ms == y.valid_from_unix_ms
    &&& x.valid_until_unix_ms == y.valid_until_unix_ms
}

/// Every pair indexes the first `n` endpoints.
pub open spec fn pairs_within(ps: Seq<(int, int)>, n: int) -> bool {
    forall|k: int| 0 <= k < ps.len() ==> 0 <= (#[trigger] ps[k]).0 < n && 0 <= ps[k].1 < n
}

proof fn lemma_unique_policy_same(p1: Seq<EncryptionPolicyFact>, p2: Seq<EncryptionPolicyFact>, s: IdentityId, d: IdentityId)
    requires
        policies_same(p1, p2),
    ensures
        has_unique_policy(p1, s, d) == has_unique_policy(p2, s, d),
        has_unique_policy(p1, s, d) ==> policy_same(unique_policy(p1, s, d), unique_policy(p2, s, d)),
{
    assert forall|i: int| unique_policy_at(p1, s, d, i) == unique_policy_at(p2, s, d, i) by {
        if 0 <= i < p1.len() {
            assert(policy_same(p1[i], p2[i]));
        }
        if unique_policy_at(p1, s, d, i) {
            assert forall|j: int| 0 <= j < p2.len() && j != i implies !((#[trigger] p2[j]).source == s && p2[j].destination == d) by {
                assert(policy_same(p1[j], p2[j]));
            }
        }
        if unique_policy_at(p2, s, d, i) {
            assert forall|j: int| 0 <= j < p1.len() && j != i implies !((#[trigger] p1[j]).source == s && p1[j].destination == d) by {
                assert(policy_same(p1[j], p2[j]));
            }
        }
    }
    if has_unique_policy(p1, s, d) {
        let a = choose|i: int| unique_policy_at(p1, s, d, i);
        let b = choose|i: int| unique_policy_at(p2, s, d, i);
        assert(unique_policy_at(p2, s, d, a));
        if a != b {
            assert(!(p2[a].source == s && p2[a].destination == d));
        }
        assert(policy_same(p1[a], p2[a]));
    }
}

proof fn lemma_unique_path_same(p1: Seq<EncryptionPathFact>, p2: Seq<EncryptionPathFact>, s: Seq<char>, d: Seq<char>, epoch: u64)
    requires
        paths_same(p1, p2),
    ensures
        has_unique_path(p1, s, d, epoch) == has_unique_path(p2, s, d, epoch),
        has_unique_path(p1, s, d, epoch) ==> path_same(unique_path(p1, s, d, epoch), unique_path(p2, s, d, epoch)),
{
    assert forall|i: int| unique_path_at(p1, s, d, epoch, i) == unique_path_at(p2, s, d, epoch, i) by {
        if 0 <= i < p1.len() {
            assert(path_same(p1[i], p2[i]));
        }
        if unique_path_at(p1, s, d, epoch, i) {
            assert forall|j: int| 0 <= j < p2.len() && j != i implies !((#[trigger] p2[j]).source_node_uid@ == s
                && p2[j].destination_node_uid@ == d && p2[j].epoch == epoch) by {
                assert(path_same(p1[j], p2[j]));
            }
        }
        if unique_path_at(p2, s, d, epoch, i) {
            assert forall|j: int| 0 <= j < p1.len() && j != i implies !((#[trigger] p1[j]).source_node_uid@ == s
                && p1[j].destination_node_uid@ == d && p1[j].epoch == epoch) by {
                assert(path_same(p1[j], p2[j]));
            }
        }
    }
    if has_unique_path(p1, s, d, epoch) {
        let a = choose|i: int| unique_path_at(p1, s, d, epoch, i);
        let b = choose|i: int| unique_path_at(p2, s, d, epoch, i);
        assert(unique_path_at(p2, s, d, epoch, a));
        if a != b {
            assert(!(p2[a].source_node_uid@ == s && p2[a].destination_node_uid@ == d && p2[a].epoch == epoch));
        }
        assert(path_same(p1[a], p2[a]));
    }
}

proof fn lemma_path_error_same(
    p1: EncryptionPathFact,
    p2: EncryptionPathFact,
    n1: EncryptionNode,
    n2: EncryptionNode,
    m1: EncryptionNode,
    m2: EncryptionNode,
)
    requires
        path_same(p1, p2),
        node_same(n1, n2),
        node_same(m1, m2),
    ensures
        path_error(p1, n1, m1) == path_error(p2, n2, m2),
{
}

/// The pair from `s` to `d` is judged alike on agreeing inputs.
#[verifier::spinoff_prover]
proof fn lemma_plan_error_same(
    c1: PlanInputs,
    c2: PlanInputs,
    s1: EncryptionEndpointFact,
    s2: EncryptionEndpointFact,
    d1: EncryptionEndpointFact,
    d2: EncryptionEndpointFact,
)
    requires
        inputs_same(c1, c2),
        endpoint_same(s1, s2),
        endpoint_same(d1, d2),
    ensures
        plan_error(c1, s1, d1) == plan_error(c2, s2, d2),
        plan_wanted(c1, s1, d1) == plan_wanted(c2, s2, d2),
{
    let e = c1.active_epoch;
    lemma_unique_policy_same(c1.policies, c2.policies, s1.identity, d1.identity);
    lemma_unique_path_same(c1.paths, c2.paths, s1.node.uid@, d1.node.uid@, e);
    lemma_unique_path_same(c1.paths, c2.paths, d1.node.uid@, s1.node.uid@, e);
    if has_unique_path(c1.paths, s1.node.uid@, d1.node.uid@, e) {
        lemma_path_error_same(
            unique_path(c1.paths, s1.node.uid@, d1.node.uid@, e),
            unique_path(c2.paths, s1.node.uid@, d1.node.uid@, e),
            s1.node,
            s2.node,
            d1.node,
            d2.node,
        );
    }
    if has_unique_path(c1.paths, d1.node.uid@, s1.node.uid@, e) {
        lemma_path_error_same(
            unique_path(c1.paths, d1.node.uid@, s1.node.uid@, e),
            unique_path(c2.paths, d1.node.uid@, s1.node.uid@, e),
            d1.node,
            d2.node,
            s1.node,
            s2.node,
        );
    }
}

/// A plan is built for the pair alike on agreeing inputs.
#[verifier::spinoff_prover]
proof fn lemma_plan_built_same(
    pl: AttestedEncryptionPathPlan,
    c1: PlanInputs,
    c2: PlanInputs,
    s1: EncryptionEndpointFact,
    s2: EncryptionEndpointFact,
    d1: EncryptionEndpointFact,
    d2: EncryptionEndpointFact,
)
    requires
        inputs_same(c1, c2),
        endpoint_same(s1, s2),
        endpoint_same(d1, d2),
        plan_wanted(c1, s1, d1),
        plan_error(c1, s1, d1) is None,
    ensures
        plan_built(pl, c1, s1, d1) == plan_built(pl, c2, s2, d2),
{
    let e = c1.active_epoch;
    lemma_unique_policy_same(c1.policies, c2.policies, s1.identity, d1.identity);
    lemma_unique_path_same(c1.paths, c2.paths, s1.node.uid@, d1.node.uid@, e);
    lemma_unique_path_same(c1.paths, c2.paths, d1.node.uid@, s1.node.uid@, e);
}

proof fn lemma_row_pairs_same(
    e1: Seq<EncryptionEndpointFact>,
    e2: Seq<EncryptionEndpointFact>,
    l1: EncryptionNode,
    l2: EncryptionNode,
    i: int,
    n: nat,
)
    requires
        endpoints_same(e1, e2),
        node_same(l1, l2),
        n <= e1.len(),
    ensures
        row_index_pairs(e1, l1, i, n) == row_index_pairs(e2, l2, i, n),
    decreases n,
{
    if n > 0 {
        lemma_row_pairs_same(e1, e2, l1, l2, i, (n - 1) as nat);
        assert(endpoint_same(e1[n - 1], e2[n - 1]));
    }
}

proof fn lemma_index_pairs_same(e1: Seq<EncryptionEndpointFact>, e2: Seq<EncryptionEndpointFact>, l1: EncryptionNode, l2: EncryptionNode, n: nat)
    requires
        endpoints_same(e1, e2),
        node_same(l1, l2),
        n <= e1.len(),
    ensures
        index_pairs(e1, l1, n) == index_pairs(e2, l2, n),
    decreases n,
{
    if n > 0 {
        lemma_index_pairs_same(e1, e2, l1, l2, (n - 1) as nat);
        lemma_row_pairs_same(e1, e2, l1, l2, n - 1, e1.len());
        assert(endpoint_same(e1[n - 1], e2[n - 1]));
    }
}

proof fn lemma_row_pairs_within(eps: Seq<EncryptionEndpointFact>, l: EncryptionNode, i: int, n: nat)
    requires
        0 <= i < eps.len(),
        n <= eps.len(),
    ensures
        pairs_within(row_index_pairs(eps, l, i, n), eps.len() as int),
        forall|k: int| 0 <= k < row_index_pairs(eps, l, i, n).len() ==> (#[trigger] row_index_pairs(eps, l, i, n)[k]).0 == i
            && row_index_pairs(eps, l, i, n)[k].1 < n,
        forall|a: int, b: int| 0 <= a < b < row_index_pairs(eps, l, i, n).len() ==> (#[trigger] row_index_pairs(eps, l, i, n)[a]).1
            < (#[trigger] row_index_pairs(eps, l, i, n)[b]).1,
    decreases n,
{
    if n > 0 {
        lemma_row_pairs_within(eps, l, i, (n - 1) as nat);
    }
}

proof fn lemma_index_pairs_within(eps: Seq<EncryptionEndpointFact>, l: EncryptionNode, n: nat)
    requires
        n <= eps.len(),
    ensures
        pairs_within(index_pairs(eps, l, n), eps.len() as int),
        forall|k: int| 0 <= k < index_pairs(eps, l, n).len() ==> (#[trigger] index_pairs(eps, l, n)[k]).0 < n,
        forall|a: int, b: int| 0 <= a < b < index_pairs(eps, l, n).len() ==> #[trigger] index_pairs(eps, l, n)[a]
            != #[trigger] index_pairs(eps, l, n)[b],
    decreases n,
{
    if n > 0 {
        let rest = index_pairs(eps, l, (n - 1) as nat);
        lemma_index_pairs_within(eps, l, (n - 1) as nat);
        if is_plan_source(eps[n - 1], l) {
            let row = row_index_pairs(eps, l, n - 1, eps.len());
            lemma_row_pairs_within(eps, l, n - 1, eps.len());
            let all = rest + row;
            assert(index_pairs(eps, l, n) == all);
            assert forall|a: int, b: int| 0 <= a < b < all.len() implies #[trigger] all[a] != #[trigger] all[b] by {
                if b < rest.len() {
                    assert(all[a] == rest[a] && all[b] == rest[b]);
                } else if a < rest.len() {
                    assert(all[a] == rest[a] && all[b] == row[b - rest.len()]);
                    assert(rest[a].0 < n - 1);
                } else {
                    assert(all[a] == row[a - rest.len()] && all[b] == row[b - rest.len()]);
                }
            }
            assert forall|k: int| 0 <= k < all.len() implies 0 <= (#[trigger] all[k]).0 < eps.len() && 0 <= all[k].1 < eps.len()
                && all[k].0 < n by {
                if k < rest.len() {
                    assert(all[k] == rest[k]);
                } else {
                    assert(all[k] == row[k - rest.len()]);
                }
            }
        }
    }
}

/// The pairs of `plan_pairs` index the endpoints and are distinct.
pub proof fn lemma_plan_pairs_within(eps: Seq<EncryptionEndpointFact>, l: EncryptionNode)
    ensures
        pairs_within(plan_pairs(eps, l), eps.len() as int),
        forall|a: int, b: int| 0 <= a < b < plan_pairs(eps, l).len() ==> #[trigger] plan_pairs(eps, l)[a]
            != #[trigger] plan_pairs(eps, l)[b],
{
    lemma_index_pairs_within(eps, l, eps.len());
}

proof fn lemma_pairs_drop_last(ps: Seq<(int, int)>, n: int)
    requires
        pairs_within(ps, n),
        ps.len() > 0,
    ensures
        pairs_within(ps.drop_last(), n),
        0 <= ps.last().0 < n,
        0 <= ps.last().1 < n,
{
    assert forall|k: int| 0 <= k < ps.drop_last().len() implies 0 <= (#[trigger] ps.drop_last()[k]).0 < n && 0 <= ps.drop_last()[k].1 < n by {
        assert(ps.drop_last()[k] == ps[k]);
    }
    assert(ps.last() == ps[ps.len() - 1]);
}

/// Plan-stage outcomes over the same pairs agree on agreeing inputs.
proof fn lemma_first_error_same(c1: PlanInputs, c2: PlanInputs, e1: Seq<EncryptionEndpointFact>, e2: Seq<EncryptionEndpointFact>, ps: Seq<(int, int)>)
    requires
        inputs_same(c1, c2),
        endpoints_same(e1, e2),
        pairs_within(ps, e1.len() as int),
    ensures
        first_plan_error(c1, e1, ps) == first_plan_error(c2, e2, ps),
        wanted_count(c1, e1, ps) == wanted_count(c2, e2, ps),
    decreases ps.len(),
{
    if ps.len() > 0 {
        lemma_pairs_drop_last(ps, e1.len() as int);
        lemma_first_error_same(c1, c2, e1, e2, ps.drop_last());
        let (i, j) = ps.last();
        assert(endpoint_same(e1[i], e2[i]));
        assert(endpoint_same(e1[j], e2[j]));
        lemma_plan_error_same(c1, c2, e1[i], e2[i], e1[j], e2[j]);
    }
}

proof fn lemma_built_for_same(
    out: Seq<AttestedEncryptionPathPlan>,
    c1: PlanInputs,
    c2: PlanInputs,
    e1: Seq<EncryptionEndpointFact>,
    e2: Seq<EncryptionEndpointFact>,
    ps: Seq<(int, int)>,
)
    requires
        inputs_same(c1, c2),
        endpoints_same(e1, e2),
        pairs_within(ps, e1.len() as int),
        first_plan_error(c1, e1, ps) is None,
    ensures
        plans_built_for(out, c1, e1, ps) == plans_built_for(out, c2, e2, ps),
    decreases ps.len(),
{
    if ps.len() > 0 {
        lemma_pairs_drop_last(ps, e1.len() as int);
        let (i, j) = ps.last();
        assert(endpoint_same(e1[i], e2[i]));
        assert(endpoint_same(e1[j], e2[j]));
        lemma_plan_error_same(c1, c2, e1[i], e2[i], e1[j], e2[j]);
        assert(first_plan_error(c1, e1, ps.drop_last()) is None);
        if plan_wanted(c1, e1[i], e1[j]) {
            if out.len() > 0 {
                lemma_plan_built_same(out.last(), c1, c2, e1[i], e2[i], e1[j], e2[j]);
                lemma_built_for_same(out.drop_last(), c1, c2, e1, e2, ps.drop_last());
            }
        } else {
            lemma_built_for_same(out, c1, c2, e1, e2, ps.drop_last());
        }
    }
}

/// Plan compilation judges agreeing inputs alike: the same pairs, the same
/// outcome, the same error.
pub proof fn lemma_plan_stage_same(
    c1: PlanInputs,
    c2: PlanInputs,
    e1: Seq<EncryptionEndpointFact>,
    e2: Seq<EncryptionEndpointFact>,
    l1: EncryptionNode,
    l2: EncryptionNode,
)
    requires
        inputs_same(c1, c2),
        endpoints_same(e1, e2),
        node_same(l1, l2),
    ensures
        plan_pairs(e1, l1) == plan_pairs(e2, l2),
        plan_stage_ok(c1, e1, l1) == plan_stage_ok(c2, e2, l2),
        forall|e: EncryptionContractError| #[trigger] plan_stage_error(c1, e1, l1, e) == plan_stage_error(c2, e2, l2, e),
        first_plan_error(c1, e1, plan_pairs(e1, l1)) is None ==> forall|out: Seq<AttestedEncryptionPathPlan>|
            #[trigger] plans_built_for(out, c1, e1, plan_pairs(e1, l1)) == plans_built_for(out, c2, e2, plan_pairs(e2, l2)),
{
    lemma_index_pairs_same(e1, e2, l1, l2, e1.len());
    let ps = plan_pairs(e1, l1);
    lemma_plan_pairs_within(e1, l1);
    lemma_first_error_same(c1, c2, e1, e2, ps);
    if first_plan_error(c1, e1, ps) is None {
        assert forall|out: Seq<AttestedEncryptionPathPlan>| #[trigger] plans_built_for(out, c1, e1, ps) == plans_built_for(out, c2, e2, ps) by {
            lemma_built_for_same(out, c1, c2, e1, e2, ps);
        }
        if plan_stage_ok(c1, e1, l1) {
            assert forall|built: Seq<AttestedEncryptionPathPlan>| #[trigger] plans_built_for(built, c2, e2, plan_pairs(e2, l2))
                implies allowed_ips_disjoint(built) by {
                assert(plans_built_for(built, c1, e1, ps));
            }
        }
        if plan_stage_ok(c2, e2, l2) {
            assert forall|built: Seq<AttestedEncryptionPathPlan>| #[trigger] plans_built_for(built, c1, e1, plan_pairs(e1, l1))
                implies allowed_ips_disjoint(built) by {
                assert(plans_built_for(built, c2, e2, ps));
            }
        }
        assert forall|e: EncryptionContractError| #[trigger] plan_stage_error(c1, e1, l1, e) == plan_stage_error(c2, e2, l2, e) by {
            if plan_stage_error(c1, e1, l1, e) && e == EncryptionContractError::AmbiguousAllowedIp && wanted_count(c1, e1, ps)
                <= crate::model::MAX_ENCRYPTION_PATHS {
                if exists|built: Seq<AttestedEncryptionPathPlan>| #[trigger] plans_built_for(built, c1, e1, ps) && !allowed_ips_disjoint(built) {
                    let built = choose|built: Seq<AttestedEncryptionPathPlan>| #[trigger] plans_built_for(built, c1, e1, ps)
                        && !allowed_ips_disjoint(built);
                    assert(plans_built_for(built, c2, e2, ps));
                }
            }
            if plan_stage_error(c2, e2, l2, e) && e == EncryptionContractError::AmbiguousAllowedIp && wanted_count(c1, e1, ps)
                <= crate::model::MAX_ENCRYPTION_PATHS {
                if exists|built: Seq<AttestedEncryptionPathPlan>| #[trigger] plans_built_for(built, c2, e2, ps) && !allowed_ips_disjoint(built) {
                    let built = choose|built: Seq<AttestedEncryptionPathPlan>| #[trigger] plans_built_for(built, c2, e2, ps)
                        && !allowed_ips_disjoint(built);
                    assert(plans_built_for(built, c1, e1, ps));
                }
            }
        }
    }
}

/// Two plans built for the same pair agree field by field.
pub proof fn lemma_plan_built_unique(
    p1: AttestedEncryptionPathPlan,
    p2: AttestedEncryptionPathPlan,
    c: PlanInputs,
    s: EncryptionEndpointFact,
    d: EncryptionEndpointFact,
)
    requires
        plan_built(p1, c, s, d),
        plan_built(p2, c, s, d),
    ensures
        plan_same(p1, p2),
{
}

/// Two plan lists built for the same pairs agree position by position.
pub proof fn lemma_built_for_unique(
    b1: Seq<AttestedEncryptionPathPlan>,
    b2: Seq<AttestedEncryptionPathPlan>,
    c: PlanInputs,
    e: Seq<EncryptionEndpointFact>,
    ps: Seq<(int, int)>,
)
    requires
        plans_built_for(b1, c, e, ps),
        plans_built_for(b2, c, e, ps),
    ensures
        b1.len() == b2.len(),
        forall|k: int| 0 <= k < b1.len() ==> plan_same(#[trigger] b1[k], b2[k]),
    decreases ps.len(),
{
    if ps.len() > 0 {
        let (i, j) = ps.last();
        if plan_wanted(c, e[i], e[j]) {
            lemma_built_for_unique(b1.drop_last(), b2.drop_last(), c, e, ps.drop_last());
            lemma_plan_built_unique(b1.last(), b2.last(), c, e[i], e[j]);
            assert forall|k: int| 0 <= k < b1.len() implies plan_same(#[trigger] b1[k], b2[k]) by {
                if k < b1.len() - 1 {
                    assert(b1.drop_last()[k] == b1[k] && b2.drop_last()[k] == b2[k]);
                }
            }
        } else {
            lemma_built_for_unique(b1, b2, c, e, ps.drop_last());
        }
    }
}

/// Plans with equal keys share their source and destination workloads.
proof fn lemma_plan_key_eq(p: AttestedEncryptionPathPlan, q: AttestedEncryptionPathPlan)
    requires
        key_eq(p, q),
    ensures
        p.source.workload_uid@ == q.source.workload_uid@,
        p.destination.workload_uid@ == q.destination.workload_uid@,
{
    lemma_text_key(p.source.workload_uid@, q.source.workload_uid@, p.source.workload_uid@);
    lemma_text_key(p.destination.workload_uid@, q.destination.workload_uid@, p.destination.workload_uid@);
}

/// No two endpoints share a workload UID.
pub open spec fn workloads_unique(e: Seq<EncryptionEndpointFact>) -> bool {
    forall|i: int, j: int|
        0 <= i < e.len() && 0 <= j < e.len() && (#[trigger] e[i]).workload_uid@ == (#[trigger] e[j]).workload_uid@ ==> i == j
}

/// Every pair of `ps` occurs once.
pub open spec fn pairs_distinct(ps: Seq<(int, int)>) -> bool {
    forall|a: int, b: int| 0 <= a < b < ps.len() ==> #[trigger] ps[a] != #[trigger] ps[b]
}

/// `p` is the plan built for one of the pairs.
pub open spec fn built_from(p: AttestedEncryptionPathPlan, c: PlanInputs, e: Seq<EncryptionEndpointFact>, ps: Seq<(int, int)>) -> bool {
    exists|m: int| 0 <= m < ps.len() && plan_built(p, c, e[(#[trigger] ps[m]).0], e[ps[m].1])
}

/// Plans built for distinct pairs of endpoints with distinct workloads have
/// distinct keys.
pub proof fn lemma_built_keys_distinct(
    out: Seq<AttestedEncryptionPathPlan>,
    c: PlanInputs,
    e: Seq<EncryptionEndpointFact>,
    ps: Seq<(int, int)>,
)
    requires
        plans_built_for(out, c, e, ps),
        pairs_within(ps, e.len() as int),
        pairs_distinct(ps),
        workloads_unique(e),
    ensures
        keys_distinct(out),
        forall|k: int| 0 <= k < out.len() ==> built_from(#[trigger] out[k], c, e, ps),
    decreases ps.len(),
{
    if ps.len() > 0 {
        lemma_pairs_drop_last(ps, e.len() as int);
        let ps1 = ps.drop_last();
        assert forall|a: int, b: int| 0 <= a < b < ps1.len() implies #[trigger] ps1[a] != #[trigger] ps1[b] by {
            assert(ps1[a] == ps[a] && ps1[b] == ps[b]);
        }
        let (i, j) = ps.last();
        if plan_wanted(c, e[i], e[j]) {
            let o1 = out.drop_last();
            lemma_built_keys_distinct(o1, c, e, ps1);
            let x = out.last();
            assert forall|k: int| 0 <= k < out.len() implies built_from(#[trigger] out[k], c, e, ps) by {
                if k < out.len() - 1 {
                    assert(o1[k] == out[k]);
                    assert(built_from(o1[k], c, e, ps1));
                    let m = choose|m: int| 0 <= m < ps1.len() && plan_built(o1[k], c, e[(#[trigger] ps1[m]).0], e[ps1[m].1]);
                    assert(ps1[m] == ps[m]);
                } else {
                    assert(ps[ps.len() - 1] == ps.last());
                }
            }
            assert forall|a: int, b: int| 0 <= a < b < out.len() implies !key_eq(#[trigger] out[a], #[trigger] out[b]) by {
                if b < out.len() - 1 {
                    assert(o1[a] == out[a] && o1[b] == out[b]);
                } else {
                    assert(o1[a] == out[a]);
                    assert(built_from(o1[a], c, e, ps1));
                    let m = choose|m: int| 0 <= m < ps1.len() && plan_built(o1[a], c, e[(#[trigger] ps1[m]).0], e[ps1[m].1]);
                    assert(ps1[m] == ps[m]);
                    assert(ps[m] != ps[ps.len() - 1]);
                    if key_eq(out[a], out[b]) {
                        lemma_plan_key_eq(out[a], out[b]);
                        assert(out[b] == x);
                        let (i2, j2) = ps[m];
                        assert(e[i2].workload_uid@ == e[i].workload_uid@);
                        assert(e[j2].workload_uid@ == e[j].workload_uid@);
                        assert(i2 == i && j2 == j);
                    }
                }
            }
        } else {
            lemma_built_keys_distinct(out, c, e, ps1);
            assert forall|k: int| 0 <= k < out.len() implies built_from(#[trigger] out[k], c, e, ps) by {
                assert(built_from(out[k], c, e, ps1));
                let m = choose|m: int| 0 <= m < ps1.len() && plan_built(out[k], c, e[(#[trigger] ps1[m]).0], e[ps1[m].1]);
                assert(ps1[m] == ps[m]);
            }
        }
    }
}

proof fn lemma_plan_key_same(p: AttestedEncryptionPathPlan, q: AttestedEncryptionPathPlan, r: AttestedEncryptionPathPlan)
    requires
        plan_same(p, q),
    ensures
        p.key_lt(r) == q.key_lt(r),
        r.key_lt(p) == r.key_lt(q),
        key_eq(p, q),
{
    lemma_text_irreflexive(p.source.workload_uid@);
    lemma_text_irreflexive(p.destination.workload_uid@);
}

/// Sorted rearrangements of two plan lists that agree position by position,
/// with distinct keys, agree position by position.
pub proof fn lemma_sorted_plans_same(
    a1: Seq<AttestedEncryptionPathPlan>,
    a2: Seq<AttestedEncryptionPathPlan>,
    b1: Seq<AttestedEncryptionPathPlan>,
    b2: Seq<AttestedEncryptionPathPlan>,
)
    requires
        sorted_by_key(a1),
        sorted_by_key(a2),
        a1.to_multiset() == b1.to_multiset(),
        a2.to_multiset() == b2.to_multiset(),
        b1.len() == b2.len(),
        forall|k: int| 0 <= k < b1.len() ==> plan_same(#[trigger] b1[k], b2[k]),
        keys_distinct(b1),
    ensures
        a1.len() == a2.len(),
        forall|k: int| 0 <= k < a1.len() ==> plan_same(#[trigger] a1[k], a2[k]),
    decreases a1.len(),
{
    to_multiset_len(a1);
    to_multiset_len(a2);
    to_multiset_len(b1);
    to_multiset_len(b2);
    if a1.len() == 0 {
        return;
    }
    assert(a1.contains(a1[0]));
    to_multiset_contains(a1, a1[0]);
    to_multiset_contains(b1, a1[0]);
    let x = choose|x: int| 0 <= x < b1.len() && b1[x] == a1[0];
    assert(a2.contains(a2[0]));
    to_multiset_contains(a2, a2[0]);
    to_multiset_contains(b2, a2[0]);
    let y = choose|y: int| 0 <= y < b2.len() && b2[y] == a2[0];
    // a1[0] is no greater than b1[y], which is somewhere in a1.
    assert(b1.contains(b1[y]));
    to_multiset_contains(b1, b1[y]);
    to_multiset_contains(a1, b1[y]);
    let ky = choose|k: int| 0 <= k < a1.len() && a1[k] == b1[y];
    assert(b2.contains(b2[x]));
    to_multiset_contains(b2, b2[x]);
    to_multiset_contains(a2, b2[x]);
    let kx = choose|k: int| 0 <= k < a2.len() && a2[k] == b2[x];
    AttestedEncryptionPathPlan::lemma_key_order(a1[0], a1[0], a1[0]);
    AttestedEncryptionPathPlan::lemma_key_order(a2[0], a2[0], a2[0]);
    if ky > 0 {
        assert(!a1[ky].key_lt(a1[0]));
    }
    if kx > 0 {
        assert(!a2[kx].key_lt(a2[0]));
    }
    assert(plan_same(b1[x], b2[x]));
    assert(plan_same(b1[y], b2[y]));
    lemma_plan_key_same(b1[y], b2[y], a1[0]);
    lemma_plan_key_same(b1[x], b2[x], a2[0]);
    // Neither first element is below the other, so their keys are equal.
    assert(!a2[0].key_lt(a1[0]));
    assert(!a1[0].key_lt(a2[0]));
    lemma_plan_key_same(b1[y], b2[y], b1[x]);
    if x != y {
        if x < y {
            assert(!key_eq(b1[x], b1[y]));
        } else {
            assert(!key_eq(b1[y], b1[x]));
        }
        lemma_key_triple(b1[x], a2[0], b1[y]);
        assert(false);
    }
    assert(plan_same(a1[0], a2[0]));
    // Remove the matched pair and continue.
    to_multiset_remove(a1, 0);
    to_multiset_remove(a2, 0);
    to_multiset_remove(b1, x);
    to_multiset_remove(b2, x);
    assert(a1.remove(0) =~= a1.drop_first());
    assert(a2.remove(0) =~= a2.drop_first());
    let c1 = b1.remove(x);
    let c2 = b2.remove(x);
    assert forall|k: int| 0 <= k < c1.len() implies plan_same(#[trigger] c1[k], c2[k]) by {
        if k < x {
            assert(c1[k] == b1[k] && c2[k] == b2[k]);
        } else {
            assert(c1[k] == b1[k + 1] && c2[k] == b2[k + 1]);
        }
    }
    assert forall|i: int, j: int| 0 <= i < j < c1.len() implies !key_eq(#[trigger] c1[i], #[trigger] c1[j]) by {
        let i0 = if i < x { i } else { i + 1 };
        let j0 = if j < x { j } else { j + 1 };
        assert(c1[i] == b1[i0] && c1[j] == b1[j0]);
        assert(i0 < j0);
    }
    let d1 = a1.drop_first();
    let d2 = a2.drop_first();
    assert forall|i: int, j: int| 0 <= i < j < d1.len() implies !(#[trigger] d1[j]).key_lt(#[trigger] d1[i]) by {
        assert(d1[i] == a1[i + 1] && d1[j] == a1[j + 1]);
    }
    assert forall|i: int, j: int| 0 <= i < j < d2.len() implies !(#[trigger] d2[j]).key_lt(#[trigger] d2[i]) by {
        assert(d2[i] == a2[i + 1] && d2[j] == a2[j + 1]);
    }
    lemma_sorted_plans_same(d1, d2, c1, c2);
    assert forall|k: int| 0 <= k < a1.len() implies plan_same(#[trigger] a1[k], a2[k]) by {
        if k > 0 {
            assert(d1[k - 1] == a1[k] && d2[k - 1] == a2[k]);
        }
    }
}

proof fn lemma_concat_enc_same<T: Encode>(a: Seq<T>, b: Seq<T>)
    requires
        a.len() == b.len(),
        forall|i: int| 0 <= i < a.len() ==> (#[trigger] a[i]).enc() == b[i].enc(),
    ensures
        concat_enc(a) == concat_enc(b),
        list_enc(a) == list_enc(b),
    decreases a.len(),
{
    if a.len() > 0 {
        assert forall|i: int| 0 <= i < a.drop_last().len() implies (#[trigger] a.drop_last()[i]).enc() == b.drop_last()[i].enc() by {
            assert(a.drop_last()[i] == a[i] && b.drop_last()[i] == b[i]);
        }
        lemma_concat_enc_same(a.drop_last(), b.drop_last());
        assert(a.last().enc() == b.last().enc());
    }
}

/// Agreeing plans encode alike.
proof fn lemma_plan_enc_same(p: AttestedEncryptionPathPlan, q: AttestedEncryptionPathPlan)
    requires
        plan_same(p, q),
    ensures
        p.enc() == q.enc(),
{
    let a = p.intent_uids@;
    let b = q.intent_uids@;
    assert(texts_view(a) == texts_view(b));
    assert(texts_view(a).len() == a.len() && texts_view(b).len() == b.len());
    assert forall|i: int| 0 <= i < a.len() implies (#[trigger] a[i]).enc() == b[i].enc() by {
        assert(texts_view(a)[i] == a[i]@);
        assert(texts_view(b)[i] == b[i]@);
    }
    lemma_concat_enc_same(a, b);
    assert(plan_policy_enc(p) == plan_policy_enc(q));
    assert(plan_head_enc(p) == plan_head_enc(q));
    assert(plan_binding_enc(p) == plan_binding_enc(q));
}

/// Envelopes of agreeing plan lists agree.
pub proof fn lemma_envelope_same(
    e1: EncryptionFailureEnvelope,
    e2: EncryptionFailureEnvelope,
    p1: Seq<AttestedEncryptionPathPlan>,
    p2: Seq<AttestedEncryptionPathPlan>,
)
    requires
        envelope_of(e1, p1),
        envelope_of(e2, p2),
        p1.len() == p2.len(),
        forall|k: int| 0 <= k < p1.len() ==> plan_same(#[trigger] p1[k], p2[k]),
    ensures
        envelope_same(e1, e2),
        envelope_enc(e1) == envelope_enc(e2),
{
    let o1 = e1.observations@;
    let o2 = e2.observations@;
    assert forall|k: int| 0 <= k < o1.len() implies observation_same(#[trigger] o1[k], o2[k]) by {
        assert(observation_for(o1[k], p1[k / 5], failure_classes()[k % 5]));
        assert(observation_for(o2[k], p2[k / 5], failure_classes()[k % 5]));
        assert(0 <= k / 5 < p1.len()) by (nonlinear_arith)
            requires
                0 <= k < o1.len(),
                o1.len() <= p1.len() * 5,
        ;
        assert(plan_same(p1[k / 5], p2[k / 5]));
    }
    assert forall|k: int| 0 <= k < o1.len() implies (#[trigger] o1[k]).enc() == o2[k].enc() by {
        assert(observation_same(o1[k], o2[k]));
    }
    lemma_concat_enc_same(o1, o2);
}

/// Rearranging plans keeps their AllowedIPs disjoint.
pub proof fn lemma_disjoint_permuted(a: Seq<AttestedEncryptionPathPlan>, b: Seq<AttestedEncryptionPathPlan>)
    requires
        a.to_multiset() == b.to_multiset(),
        allowed_ips_disjoint(a),
    ensures
        allowed_ips_disjoint(b),
{
    assert forall|p: AttestedEncryptionPathPlan, q: AttestedEncryptionPathPlan| b.contains(p) && b.contains(q) implies !#[trigger] plans_conflict(p, q) by {
        to_multiset_contains(b, p);
        to_multiset_contains(a, p);
        to_multiset_contains(b, q);
        to_multiset_contains(a, q);
    }
}

/// Plan lists that agree position by position are disjoint alike.
pub proof fn lemma_disjoint_same(a: Seq<AttestedEncryptionPathPlan>, b: Seq<AttestedEncryptionPathPlan>)
    requires
        a.len() == b.len(),
        forall|k: int| 0 <= k < a.len() ==> plan_same(#[trigger] a[k], b[k]),
        allowed_ips_disjoint(a),
    ensures
        allowed_ips_disjoint(b),
{
    assert forall|p: AttestedEncryptionPathPlan, q: AttestedEncryptionPathPlan| b.contains(p) && b.contains(q) implies !#[trigger] plans_conflict(p, q) by {
        let i = choose|i: int| 0 <= i < b.len() && b[i] == p;
        let j = choose|j: int| 0 <= j < b.len() && b[j] == q;
        assert(plan_same(a[i], b[i]));
        assert(plan_same(a[j], b[j]));
        assert(a.contains(a[i]));
        assert(a.contains(a[j]));
        assert(!plans_conflict(a[i], a[j]));
    }
}

/// Once one plan list built for the pairs is disjoint (in any order), every
/// plan list built for them is.
pub proof fn lemma_every_build_disjoint(
    out: Seq<AttestedEncryptionPathPlan>,
    built: Seq<AttestedEncryptionPathPlan>,
    c: PlanInputs,
    e: Seq<EncryptionEndpointFact>,
    ps: Seq<(int, int)>,
)
    requires
        plans_built_for(built, c, e, ps),
        out.to_multiset() == built.to_multiset(),
        allowed_ips_disjoint(out),
    ensures
        forall|b: Seq<AttestedEncryptionPathPlan>| #[trigger] plans_built_for(b, c, e, ps) ==> allowed_ips_disjoint(b),
{
    lemma_disjoint_permuted(out, built);
    assert forall|b: Seq<AttestedEncryptionPathPlan>| #[trigger] plans_built_for(b, c, e, ps) implies allowed_ips_disjoint(b) by {
        lemma_built_for_unique(built, b, c, e, ps);
        lemma_disjoint_same(built, b);
    }
}

/// Canonical endpoints of conflict-free, distinct facts carry distinct
/// workload UIDs.
proof fn lemma_canonical_workloads_unique(eps: Seq<EncryptionEndpointFact>, v: Seq<EncryptionEndpointFact>)
    requires
        endpoints_canonical_of(eps, v),
        !endpoints_conflict(v),
        keys_distinct(v),
    ensures
        workloads_unique(eps),
{
    reveal(endpoint_drawn_from);
    assert forall|i: int, j: int|
        0 <= i < eps.len() && 0 <= j < eps.len() && (#[trigger] eps[i]).workload_uid@ == (#[trigger] eps[j]).workload_uid@ implies i == j by {
        assert(endpoint_drawn_from(eps[i], v));
        assert(endpoint_drawn_from(eps[j], v));
        let a = choose|a: int| 0 <= a < v.len() && endpoint_canonical_of(eps[i], v[a]);
        let b = choose|b: int| 0 <= b < v.len() && endpoint_canonical_of(eps[j], v[b]);
        lemma_endpoint_canonical_key(eps[i], v[a]);
        lemma_endpoint_canonical_key(eps[j], v[b]);
        lemma_text_irreflexive(v[a].workload_uid@);
        lemma_text_irreflexive(v[a].node.uid@);
        if a < b {
            assert(!endpoint_conflict(v[a], v[b]));
            assert(key_eq(v[a], v[b]));
        } else if b < a {
            assert(!endpoint_conflict(v[b], v[a]));
            assert(key_eq(v[b], v[a]));
        }
        assert(a == b);
        lemma_key_triple(eps[i], v[a], eps[j]);
        lemma_key_triple(eps[j], v[a], eps[i]);
        if i < j {
            assert(eps[i].key_lt(eps[j]));
        } else if j < i {
            assert(eps[j].key_lt(eps[i]));
        }
    }
}

/// What the input checks establish once they all pass.
proof fn lemma_front_passed(
    model: crate::model::EncryptionModel,
    facts: EncryptionContractFacts,
    local: EncryptionNode,
    contract_revision: Revision,
    valid_from_unix_ms: u64,
    valid_until_unix_ms: u64,
)
    requires
        contract_input_error(model, facts, local, contract_revision, valid_from_unix_ms, valid_until_unix_ms) is None,
    ensures
        !endpoints_conflict(facts.endpoints@),
        keys_distinct(facts.endpoints@),
        keys_distinct(facts.policies@),
        keys_distinct(facts.paths@),
{
}

/// Two canonical readings of the same facts give agreeing plan inputs.
#[verifier::spinoff_prover]
proof fn lemma_canonical_inputs_same(
    model: crate::model::EncryptionModel,
    facts: EncryptionContractFacts,
    from: u64,
    until: u64,
    eps1: Seq<EncryptionEndpointFact>,
    pols1: Seq<EncryptionPolicyFact>,
    keys1: Seq<EncryptionKeyFact>,
    paths1: Seq<EncryptionPathFact>,
    eps2: Seq<EncryptionEndpointFact>,
    pols2: Seq<EncryptionPolicyFact>,
    keys2: Seq<EncryptionKeyFact>,
    paths2: Seq<EncryptionPathFact>,
)
    requires
        canonical_facts(eps1, pols1, keys1, paths1, facts),
        canonical_facts(eps2, pols2, keys2, paths2, facts),
        keys_distinct(facts.endpoints@),
        keys_distinct(facts.policies@),
        keys_distinct(facts.paths@),
    ensures
        inputs_same(
            plan_inputs(model, facts, pols1, keys1, paths1, from, until),
            plan_inputs(model, facts, pols2, keys2, paths2, from, until),
        ),
        endpoints_same(eps1, eps2),
{
    lemma_endpoints_canonical_same(eps1, eps2, facts.endpoints@);
    lemma_policies_canonical_same(pols1, pols2, facts.policies@);
    lemma_paths_canonical_same(paths1, paths2, facts.paths@);
    lemma_sorted_unique(keys1, keys2);
}

/// Plan compilation over any two canonical readings of the same inputs
/// agrees.
#[verifier::spinoff_prover]
proof fn lemma_canonical_stage_same(
    model: crate::model::EncryptionModel,
    facts: EncryptionContractFacts,
    local: EncryptionNode,
    contract_revision: Revision,
    from: u64,
    until: u64,
    eps1: Seq<EncryptionEndpointFact>,
    pols1: Seq<EncryptionPolicyFact>,
    keys1: Seq<EncryptionKeyFact>,
    paths1: Seq<EncryptionPathFact>,
    l1: EncryptionNode,
    eps2: Seq<EncryptionEndpointFact>,
    pols2: Seq<EncryptionPolicyFact>,
    keys2: Seq<EncryptionKeyFact>,
    paths2: Seq<EncryptionPathFact>,
    l2: EncryptionNode,
)
    requires
        contract_input_error(model, facts, local, contract_revision, from, until) is None,
        canonical_facts(eps1, pols1, keys1, paths1, facts),
        canonical_facts(eps2, pols2, keys2, paths2, facts),
        node_canonical_of(l1, local),
        node_canonical_of(l2, local),
    ensures
        inputs_same(
            plan_inputs(model, facts, pols1, keys1, paths1, from, until),
            plan_inputs(model, facts, pols2, keys2, paths2, from, until),
        ),
        endpoints_same(eps1, eps2),
        node_same(l1, l2),
        plan_pairs(eps1, l1) == plan_pairs(eps2, l2),
        plan_stage_ok(plan_inputs(model, facts, pols1, keys1, paths1, from, until), eps1, l1) == plan_stage_ok(
            plan_inputs(model, facts, pols2, keys2, paths2, from, until),
            eps2,
            l2,
        ),
        forall|e: EncryptionContractError| #[trigger] plan_stage_error(plan_inputs(model, facts, pols1, keys1, paths1, from, until), eps1, l1, e)
            == plan_stage_error(plan_inputs(model, facts, pols2, keys2, paths2, from, until), eps2, l2, e),
        first_plan_error(plan_inputs(model, facts, pols1, keys1, paths1, from, until), eps1, plan_pairs(eps1, l1)) is None
            ==> forall|out: Seq<AttestedEncryptionPathPlan>|
            #[trigger] plans_built_for(out, plan_inputs(model, facts, pols1, keys1, paths1, from, until), eps1, plan_pairs(eps1, l1))
                == plans_built_for(out, plan_inputs(model, facts, pols2, keys2, paths2, from, until), eps2, plan_pairs(eps2, l2)),
{
    lemma_front_passed(model, facts, local, contract_revision, from, until);
    lemma_canonical_inputs_same(model, facts, from, until, eps1, pols1, keys1, paths1, eps2, pols2, keys2, paths2);
    lemma_canonical_node_same(l1, local, l2, local);
    lemma_plan_stage_same(
        plan_inputs(model, facts, pols1, keys1, paths1, from, until),
        plan_inputs(model, facts, pols2, keys2, paths2, from, until),
        eps1,
        eps2,
        l1,
        l2,
    );
}

/// A plan stage fails with at most one error.
proof fn lemma_stage_error_unique(c: PlanInputs, e: Seq<EncryptionEndpointFact>, l: EncryptionNode, x: EncryptionContractError, y: EncryptionContractError)
    requires
        plan_stage_error(c, e, l, x),
        plan_stage_error(c, e, l, y),
    ensures
        x == y,
{
}

/// Once a contract is issued for some inputs, every compilation of them
/// succeeds.
#[verifier::spinoff_prover]
proof fn lemma_issued_forces_ok(
    c1: AttestedEncryptionPathContract,
    r2: Result<AttestedEncryptionPathContract, EncryptionContractError>,
    model: crate::model::EncryptionModel,
    facts: EncryptionContractFacts,
    local: EncryptionNode,
    contract_revision: Revision,
    from: u64,
    until: u64,
)
    requires
        issued_as(Ok(c1), model, facts, local, contract_revision, from, until),
        issued_as(r2, model, facts, local, contract_revision, from, until),
    ensures
        r2 is Ok,
{
    assert(contract_compiled(c1, model, facts, local, contract_revision, from, until));
    let (eps1, pols1, keys1, paths1) = choose|
        eps: Seq<EncryptionEndpointFact>,
        pols: Seq<EncryptionPolicyFact>,
        keys: Seq<EncryptionKeyFact>,
        paths: Seq<EncryptionPathFact>,
    |
        #[trigger] canonical_facts(eps, pols, keys, paths, facts) && plan_stage_ok(
            plan_inputs(model, facts, pols, keys, paths, from, until),
            eps,
            c1.local_node,
        ) && exists|built: Seq<AttestedEncryptionPathPlan>|
            #[trigger] plans_built_for(
                built,
                plan_inputs(model, facts, pols, keys, paths, from, until),
                eps,
                plan_pairs(eps, c1.local_node),
            ) && c1.plans@.to_multiset() == built.to_multiset();
    assert forall|
        eps: Seq<EncryptionEndpointFact>,
        pols: Seq<EncryptionPolicyFact>,
        keys: Seq<EncryptionKeyFact>,
        paths: Seq<EncryptionPathFact>,
        l: EncryptionNode,
    |
        #![trigger canonical_facts(eps, pols, keys, paths, facts), node_canonical_of(l, local)]
        canonical_facts(eps, pols, keys, paths, facts) && node_canonical_of(l, local) implies plan_stage_ok(
            plan_inputs(model, facts, pols, keys, paths, from, until),
            eps,
            l,
        ) by {
        lemma_canonical_stage_same(
            model,
            facts,
            local,
            contract_revision,
            from,
            until,
            eps1,
            pols1,
            keys1,
            paths1,
            c1.local_node,
            eps,
            pols,
            keys,
            paths,
            l,
        );
    }
}

/// Agreeing contracts encode alike, so they commit to the same digest.
proof fn lemma_contract_material_same(c1: AttestedEncryptionPathContract, c2: AttestedEncryptionPathContract)
    requires
        c1.schema_version == c2.schema_version,
        c1.contract_revision == c2.contract_revision,
        node_same(c1.local_node, c2.local_node),
        c1.valid_from_unix_ms == c2.valid_from_unix_ms,
        c1.valid_until_unix_ms == c2.valid_until_unix_ms,
        c1.plans@.len() == c2.plans@.len(),
        forall|k: int| 0 <= k < c1.plans@.len() ==> plan_same(#[trigger] c1.plans@[k], c2.plans@[k]),
        c1.verified_invariants@ == c2.verified_invariants@,
        envelope_enc(c1.failure_envelope) == envelope_enc(c2.failure_envelope),
    ensures
        contract_material(c1) == contract_material(c2),
        contract_digest_spec(c1) == contract_digest_spec(c2),
{
    assert forall|k: int| 0 <= k < c1.plans@.len() implies (#[trigger] c1.plans@[k]).enc() == c2.plans@[k].enc() by {
        lemma_plan_enc_same(c1.plans@[k], c2.plans@[k]);
    }
    lemma_concat_enc_same(c1.plans@, c2.plans@);
    assert(c1.local_node.enc() == c2.local_node.enc());
    assert(contract_head_enc(c1) == contract_head_enc(c2));
}

/// Two contracts compiled from the same inputs agree field by field.
#[verifier::spinoff_prover]
#[verifier::rlimit(30)]
proof fn lemma_compiled_same(
    c1: AttestedEncryptionPathContract,
    c2: AttestedEncryptionPathContract,
    model: crate::model::EncryptionModel,
    facts: EncryptionContractFacts,
    local: EncryptionNode,
    contract_revision: Revision,
    from: u64,
    until: u64,
)
    requires
        contract_input_error(model, facts, local, contract_revision, from, until) is None,
        contract_compiled(c1, model, facts, local, contract_revision, from, until),
        contract_compiled(c2, model, facts, local, contract_revision, from, until),
    ensures
        contract_same(c1, c2),
{
    let (eps1, pols1, keys1, paths1) = choose|
        eps: Seq<EncryptionEndpointFact>,
        pols: Seq<EncryptionPolicyFact>,
        keys: Seq<EncryptionKeyFact>,
        paths: Seq<EncryptionPathFact>,
    |
        #[trigger] canonical_facts(eps, pols, keys, paths, facts) && plan_stage_ok(
            plan_inputs(model, facts, pols, keys, paths, from, until),
            eps,
            c1.local_node,
        ) && exists|built: Seq<AttestedEncryptionPathPlan>|
            #[trigger] plans_built_for(
                built,
                plan_inputs(model, facts, pols, keys, paths, from, until),
                eps,
                plan_pairs(eps, c1.local_node),
            ) && c1.plans@.to_multiset() == built.to_multiset();
    let (eps2, pols2, keys2, paths2) = choose|
        eps: Seq<EncryptionEndpointFact>,
        pols: Seq<EncryptionPolicyFact>,
        keys: Seq<EncryptionKeyFact>,
        paths: Seq<EncryptionPathFact>,
    |
        #[trigger] canonical_facts(eps, pols, keys, paths, facts) && plan_stage_ok(
            plan_inputs(model, facts, pols, keys, paths, from, until),
            eps,
            c2.local_node,
        ) && exists|built: Seq<AttestedEncryptionPathPlan>|
            #[trigger] plans_built_for(
                built,
                plan_inputs(model, facts, pols, keys, paths, from, until),
                eps,
                plan_pairs(eps, c2.local_node),
            ) && c2.plans@.to_multiset() == built.to_multiset();
    let i1 = plan_inputs(model, facts, pols1, keys1, paths1, from, until);
    let i2 = plan_inputs(model, facts, pols2, keys2, paths2, from, until);
    let l1 = c1.local_node;
    let l2 = c2.local_node;
    let ps = plan_pairs(eps1, l1);
    let built1 = choose|built: Seq<AttestedEncryptionPathPlan>|
        #[trigger] plans_built_for(built, i1, eps1, ps) && c1.plans@.to_multiset() == built.to_multiset();
    let built2 = choose|built: Seq<AttestedEncryptionPathPlan>|
        #[trigger] plans_built_for(built, i2, eps2, plan_pairs(eps2, l2)) && c2.plans@.to_multiset() == built.to_multiset();
    lemma_canonical_stage_same(
        model,
        facts,
        local,
        contract_revision,
        from,
        until,
        eps1,
        pols1,
        keys1,
        paths1,
        l1,
        eps2,
        pols2,
        keys2,
        paths2,
        l2,
    );
    assert(first_plan_error(i1, eps1, ps) is None);
    assert(plans_built_for(built2, i1, eps1, ps));
    lemma_built_for_unique(built1, built2, i1, eps1, ps);
    lemma_front_passed(model, facts, local, contract_revision, from, until);
    lemma_canonical_workloads_unique(eps1, facts.endpoints@);
    lemma_plan_pairs_within(eps1, l1);
    lemma_built_keys_distinct(built1, i1, eps1, ps);
    lemma_sorted_plans_same(c1.plans@, c2.plans@, built1, built2);
    lemma_envelope_same(c1.failure_envelope, c2.failure_envelope, c1.plans@, c2.plans@);
    lemma_contract_material_same(c1, c2);
}

/// Issuing is deterministic: the same inputs give either contracts equal
/// field by field or the same error.
pub proof fn lemma_issue_deterministic(
    r1: Result<AttestedEncryptionPathContract, EncryptionContractError>,
    r2: Result<AttestedEncryptionPathContract, EncryptionContractError>,
    model: crate::model::EncryptionModel,
    facts: EncryptionContractFacts,
    local: EncryptionNode,
    contract_revision: Revision,
    valid_from_unix_ms: u64,
    valid_until_unix_ms: u64,
)
    requires
        issued_as(r1, model, facts, local, contract_revision, valid_from_unix_ms, valid_until_unix_ms),
        issued_as(r2, model, facts, local, contract_revision, valid_from_unix_ms, valid_until_unix_ms),
    ensures
        (r1 is Ok) == (r2 is Ok),
        r1 is Ok ==> contract_same(r1->Ok_0, r2->Ok_0),
        r1 is Err ==> r1 == r2,
{
    let from = valid_from_unix_ms;
    let until = valid_until_unix_ms;
    if contract_input_error(model, facts, local, contract_revision, from, until) is Some {
        return;
    }
    if r1 is Ok {
        lemma_issued_forces_ok(r1->Ok_0, r2, model, facts, local, contract_revision, from, until);
        lemma_compiled_same(r1->Ok_0, r2->Ok_0, model, facts, local, contract_revision, from, until);
    } else if r2 is Ok {
        lemma_issued_forces_ok(r2->Ok_0, r1, model, facts, local, contract_revision, from, until);
    } else {
        let e1 = r1->Err_0;
        let e2 = r2->Err_0;
        let (eps1, pols1, keys1, paths1, l1) = choose|
            eps: Seq<EncryptionEndpointFact>,
            pols: Seq<EncryptionPolicyFact>,
            keys: Seq<EncryptionKeyFact>,
            paths: Seq<EncryptionPathFact>,
            l: EncryptionNode,
        |
            #![trigger canonical_facts(eps, pols, keys, paths, facts), node_canonical_of(l, local)]
            canonical_facts(eps, pols, keys, paths, facts) && node_canonical_of(l, local) && plan_stage_error(
                plan_inputs(model, facts, pols, keys, paths, from, until),
                eps,
                l,
                e1,
            );
        let (eps2, pols2, keys2, paths2, l2) = choose|
            eps: Seq<EncryptionEndpointFact>,
            pols: Seq<EncryptionPolicyFact>,
            keys: Seq<EncryptionKeyFact>,
            paths: Seq<EncryptionPathFact>,
            l: EncryptionNode,
        |
            #![trigger canonical_facts(eps, pols, keys, paths, facts), node_canonical_of(l, local)]
            canonical_facts(eps, pols, keys, paths, facts) && node_canonical_of(l, local) && plan_stage_error(
                plan_inputs(model, facts, pols, keys, paths, from, until),
                eps,
                l,
                e2,
            );
        lemma_canonical_stage_same(
            model,
            facts,
            local,
            contract_revision,
            from,
            until,
            eps1,
            pols1,
            keys1,
            paths1,
            l1,
            eps2,
            pols2,
            keys2,
            paths2,
            l2,
        );
        let i1 = plan_inputs(model, facts, pols1, keys1, paths1, from, until);
        assert(plan_stage_error(i1, eps1, l1, e2));
        lemma_stage_error_unique(i1, eps1, l1, e1, e2);
    }
}

/// An issued contract replays: verifying it against the inputs it was
/// issued from succeeds.
pub proof fn lemma_issued_contract_verifies(
    c: AttestedEncryptionPathContract,
    model: crate::model::EncryptionModel,
    facts: EncryptionContractFacts,
    local: EncryptionNode,
    r: Result<(), EncryptionContractError>,
)
    requires
        issued_as(Ok(c), model, facts, local, c.contract_revision, c.valid_from_unix_ms, c.valid_until_unix_ms),
        replayed_as(c, model, facts, local, r),
    ensures
        r is Ok,
{
    let replay = choose|replay: Result<AttestedEncryptionPathContract, EncryptionContractError>|
        #[trigger] issued_as(replay, model, facts, local, c.contract_revision, c.valid_from_unix_ms, c.valid_until_unix_ms)
            && match replay {
            Err(e) => r == Err::<(), EncryptionContractError>(e),
            Ok(x) => if contract_same(c, x) {
                r is Ok
            } else {
                r == Err::<(), EncryptionContractError>(EncryptionContractError::ReplayMismatch)
            },
        };
    lemma_issue_deterministic(Ok(c), replay, model, facts, local, c.contract_revision, c.valid_from_unix_ms, c.valid_until_unix_ms);
}

} // verus!
