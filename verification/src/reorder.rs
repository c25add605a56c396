//! Order independence: intents given in another order normalize to the same
//! model, and facts given in another order issue the same contract.

use vstd::prelude::*;
use vstd::multiset::Multiset;
use vstd::seq_lib::{to_multiset_contains, to_multiset_len, to_multiset_remove};
use crate::contract::{
    canonical_facts, contract_compiled, contract_input_error, contract_same, endpoint_canonical_of, endpoint_drawn_from,
    endpoint_kept_in, endpoints_canonical_of, issued_as, path_canonical_of, path_drawn_from, path_kept_in,
    paths_canonical_of, plan_inputs, policies_canonical_of, policy_canonical_of, policy_drawn_from, policy_kept_in,
    AttestedEncryptionPathContract, EncryptionContractError, EncryptionNode, endpoint_conflict, endpoint_error, endpoints_conflict, first_endpoint_error,
    key_fact_ok, keys_ok, policy_fact_ok, public_keys_distinct, EncryptionContractFacts, EncryptionEndpointFact,
    EncryptionKeyFact, EncryptionPathFact, EncryptionPolicyFact,
};
use crate::ids::{IdentityId, PolicyId, Revision};
use crate::model::{
    first_intent_error, intent_error, intent_key_lt, intent_names, intent_uids, intents_sorted, model_error, model_text,
    normalized_as, selector_error, EncryptionBaseline, EncryptionIntent, EncryptionModel, EncryptionModelError,
};
use crate::sorting::{key_eq, keys_distinct, Keyed};

verus! {

/// A value that occurs at two positions occurs twice in the multiset.
proof fn lemma_two_positions<T>(s: Seq<T>, i: int, j: int)
    requires
        0 <= i < s.len(),
        0 <= j < s.len(),
        i != j,
        s[i] == s[j],
    ensures
        s.to_multiset().count(s[i]) >= 2,
{
    to_multiset_remove(s, i);
    let r = s.remove(i);
    let k = if j < i { j } else { j - 1 };
    assert(r[k] == s[j]);
    assert(r.contains(s[i]));
    to_multiset_contains(r, s[i]);
}

/// A value that occurs twice in the multiset occurs at two positions.
proof fn lemma_two_counted<T>(s: Seq<T>, v: T)
    requires
        s.to_multiset().count(v) >= 2,
    ensures
        exists|i: int, j: int| 0 <= i < s.len() && 0 <= j < s.len() && i != j && s[i] == v && s[j] == v,
{
    to_multiset_contains(s, v);
    let i = choose|i: int| 0 <= i < s.len() && s[i] == v;
    to_multiset_remove(s, i);
    let r = s.remove(i);
    to_multiset_contains(r, v);
    let k = choose|k: int| 0 <= k < r.len() && r[k] == v;
    let j = if k < i { k } else { k + 1 };
    assert(s[j] == v);
}

/// A symmetric pairwise condition that no two positions of a sequence meet
/// is met by no two positions of any rearrangement.
pub proof fn lemma_pairwise_transfer<T>(s1: Seq<T>, s2: Seq<T>, p: spec_fn(T, T) -> bool)
    requires
        s1.to_multiset() == s2.to_multiset(),
        forall|x: T, y: T| #[trigger] p(x, y) == p(y, x),
        forall|i: int, j: int| 0 <= i < j < s1.len() ==> !p(#[trigger] s1[i], #[trigger] s1[j]),
    ensures
        forall|i: int, j: int| 0 <= i < j < s2.len() ==> !p(#[trigger] s2[i], #[trigger] s2[j]),
{
    assert forall|i: int, j: int| 0 <= i < j < s2.len() implies !p(#[trigger] s2[i], #[trigger] s2[j]) by {
        assert(s2.contains(s2[i]));
        assert(s2.contains(s2[j]));
        to_multiset_contains(s2, s2[i]);
        to_multiset_contains(s1, s2[i]);
        to_multiset_contains(s2, s2[j]);
        to_multiset_contains(s1, s2[j]);
        let x = choose|x: int| 0 <= x < s1.len() && s1[x] == s2[i];
        let y = choose|y: int| 0 <= y < s1.len() && s1[y] == s2[j];
        if x < y {
            assert(!p(s1[x], s1[y]));
        } else if y < x {
            assert(!p(s1[y], s1[x]));
            assert(p(s1[x], s1[y]) == p(s1[y], s1[x]));
        } else {
            lemma_two_positions(s2, i, j);
            lemma_two_counted(s1, s2[i]);
            let (a, b) = choose|a: int, b: int| 0 <= a < s1.len() && 0 <= b < s1.len() && a != b && s1[a] == s2[i] && s1[b] == s2[i];
            if a < b {
                assert(!p(s1[a], s1[b]));
            } else {
                assert(!p(s1[b], s1[a]));
            }
        }
    }
}

/// Rearranging keeps the same elements.
proof fn lemma_same_elements<T>(s1: Seq<T>, s2: Seq<T>, x: T)
    requires
        s1.to_multiset() == s2.to_multiset(),
    ensures
        s1.contains(x) == s2.contains(x),
{
    to_multiset_contains(s1, x);
    to_multiset_contains(s2, x);
}

/// What the canonical form of a policy fact depends on: its identity pair,
/// its verdict, and its policy IDs in any order.
pub open spec fn policy_view(p: EncryptionPolicyFact) -> (IdentityId, IdentityId, bool, Multiset<PolicyId>) {
    (p.source, p.destination, p.allowed, p.policy_ids@.to_multiset())
}

pub open spec fn policy_views(v: Seq<EncryptionPolicyFact>) -> Seq<(IdentityId, IdentityId, bool, Multiset<PolicyId>)> {
    v.map_values(|p: EncryptionPolicyFact| policy_view(p))
}

/// `b` gives the facts of `a` in another order: the same revisions and
/// epoch, the same endpoints, keys and paths, and the same policy facts,
/// each with its IDs in any order.
pub open spec fn facts_reordered(a: EncryptionContractFacts, b: EncryptionContractFacts) -> bool {
    &&& a.revisions == b.revisions
    &&& a.active_epoch == b.active_epoch
    &&& a.endpoints@.to_multiset() == b.endpoints@.to_multiset()
    &&& policy_views(a.policies@).to_multiset() == policy_views(b.policies@).to_multiset()
    &&& a.keys@.to_multiset() == b.keys@.to_multiset()
    &&& a.paths@.to_multiset() == b.paths@.to_multiset()
}

proof fn lemma_first_endpoint_error_none(v: Seq<EncryptionEndpointFact>)
    ensures
        (first_endpoint_error(v) is None) == (forall|i: int| 0 <= i < v.len() ==> (#[trigger] endpoint_error(v[i])) is None),
    decreases v.len(),
{
    if v.len() > 0 {
        lemma_first_endpoint_error_none(v.drop_last());
        if first_endpoint_error(v) is None {
            assert forall|i: int| 0 <= i < v.len() implies (#[trigger] endpoint_error(v[i])) is None by {
                if i < v.len() - 1 {
                    assert(v.drop_last()[i] == v[i]);
                }
            }
        } else if forall|i: int| 0 <= i < v.len() ==> (#[trigger] endpoint_error(v[i])) is None {
            assert forall|i: int| 0 <= i < v.drop_last().len() implies (#[trigger] endpoint_error(v.drop_last()[i])) is None by {
                assert(v.drop_last()[i] == v[i]);
            }
            assert(endpoint_error(v[v.len() - 1]) is None);
        }
    }
}

/// Policy facts with the same views have the same identity pair and pass
/// the same checks.
proof fn lemma_policy_view_same(p: EncryptionPolicyFact, q: EncryptionPolicyFact)
    requires
        policy_view(p) == policy_view(q),
        policy_fact_ok(p),
    ensures
        policy_fact_ok(q),
{
    assert forall|k: int| 0 <= k < q.policy_ids@.len() implies (#[trigger] q.policy_ids@[k]).0 != 0 by {
        assert(q.policy_ids@.contains(q.policy_ids@[k]));
        lemma_same_elements(q.policy_ids@, p.policy_ids@, q.policy_ids@[k]);
    }
    lemma_pairwise_transfer(p.policy_ids@, q.policy_ids@, |x: PolicyId, y: PolicyId| key_eq(x, y));
}

/// The policy checks pass on every rearrangement.
proof fn lemma_policies_transfer(a: Seq<EncryptionPolicyFact>, b: Seq<EncryptionPolicyFact>)
    requires
        policy_views(a).to_multiset() == policy_views(b).to_multiset(),
        forall|i: int| 0 <= i < a.len() ==> policy_fact_ok(#[trigger] a[i]),
        keys_distinct(a),
    ensures
        forall|i: int| 0 <= i < b.len() ==> policy_fact_ok(#[trigger] b[i]),
        keys_distinct(b),
{
    let va = policy_views(a);
    let vb = policy_views(b);
    assert forall|i: int| 0 <= i < b.len() implies policy_fact_ok(#[trigger] b[i]) by {
        assert(vb[i] == policy_view(b[i]));
        assert(vb.contains(vb[i]));
        lemma_same_elements(vb, va, vb[i]);
        let x = choose|x: int| 0 <= x < va.len() && va[x] == vb[i];
        assert(va[x] == policy_view(a[x]));
        lemma_policy_view_same(a[x], b[i]);
    }
    let same_pair = |v: (IdentityId, IdentityId, bool, Multiset<PolicyId>), w: (IdentityId, IdentityId, bool, Multiset<PolicyId>)|
        v.0 == w.0 && v.1 == w.1;
    assert forall|i: int, j: int| 0 <= i < j < va.len() implies !same_pair(#[trigger] va[i], #[trigger] va[j]) by {
        assert(va[i] == policy_view(a[i]) && va[j] == policy_view(a[j]));
        assert(!key_eq(a[i], a[j]));
    }
    lemma_pairwise_transfer(va, vb, same_pair);
    assert forall|i: int, j: int| 0 <= i < j < b.len() implies !key_eq(#[trigger] b[i], #[trigger] b[j]) by {
        assert(vb[i] == policy_view(b[i]) && vb[j] == policy_view(b[j]));
        assert(!same_pair(vb[i], vb[j]));
    }
}

/// Each endpoint check passes on every rearrangement.
#[verifier::spinoff_prover]
proof fn lemma_endpoints_transfer(
    a: Seq<EncryptionEndpointFact>,
    b: Seq<EncryptionEndpointFact>,
    cluster_id: Seq<char>,
    local: crate::contract::EncryptionNode,
)
    requires
        a.to_multiset() == b.to_multiset(),
        first_endpoint_error(a) is None,
        !endpoints_conflict(a),
        keys_distinct(a),
        !crate::contract::cross_cluster_endpoint(a, cluster_id),
        !crate::contract::local_identity_conflict(a, local),
    ensures
        first_endpoint_error(b) is None,
        !endpoints_conflict(b),
        keys_distinct(b),
        !crate::contract::cross_cluster_endpoint(b, cluster_id),
        !crate::contract::local_identity_conflict(b, local),
{
    lemma_first_endpoint_error_none(a);
    lemma_first_endpoint_error_none(b);
    assert forall|i: int| 0 <= i < b.len() implies (#[trigger] endpoint_error(b[i])) is None by {
        assert(b.contains(b[i]));
        lemma_same_elements(b, a, b[i]);
    }
    lemma_pairwise_transfer(a, b, |x: EncryptionEndpointFact, y: EncryptionEndpointFact| endpoint_conflict(x, y));
    lemma_pairwise_transfer(a, b, |x: EncryptionEndpointFact, y: EncryptionEndpointFact| key_eq(x, y));
    if crate::contract::cross_cluster_endpoint(b, cluster_id) {
        let i = choose|i: int| 0 <= i < b.len() && (#[trigger] b[i]).node.cluster_id@ != cluster_id;
        assert(b.contains(b[i]));
        lemma_same_elements(b, a, b[i]);
    }
    if crate::contract::local_identity_conflict(b, local) {
        let i = choose|i: int|
            0 <= i < b.len() && ((#[trigger] b[i]).node.uid@ == local.uid@ && !crate::contract::node_equiv(b[i].node, local)
                || b[i].node.name@ == local.name@ && b[i].node.uid@ != local.uid@);
        assert(b.contains(b[i]));
        lemma_same_elements(b, a, b[i]);
    }
}

/// The key and path checks pass on every rearrangement.
#[verifier::spinoff_prover]
proof fn lemma_keys_paths_transfer(
    ka: Seq<EncryptionKeyFact>,
    kb: Seq<EncryptionKeyFact>,
    pa: Seq<EncryptionPathFact>,
    pb: Seq<EncryptionPathFact>,
)
    requires
        ka.to_multiset() == kb.to_multiset(),
        pa.to_multiset() == pb.to_multiset(),
        keys_ok(ka),
        !(exists|i: int| 0 <= i < pa.len() && !keys_distinct((#[trigger] pa[i]).allowed_ips@)),
        keys_distinct(pa),
    ensures
        keys_ok(kb),
        !(exists|i: int| 0 <= i < pb.len() && !keys_distinct((#[trigger] pb[i]).allowed_ips@)),
        keys_distinct(pb),
{
    assert forall|i: int| 0 <= i < kb.len() implies key_fact_ok(#[trigger] kb[i]) by {
        assert(kb.contains(kb[i]));
        lemma_same_elements(kb, ka, kb[i]);
    }
    let same_key = |x: EncryptionKeyFact, y: EncryptionKeyFact| x.epoch == y.epoch && x.public_key.0@ == y.public_key.0@;
    assert forall|i: int, j: int| 0 <= i < j < ka.len() implies !same_key(#[trigger] ka[i], #[trigger] ka[j]) by {
        assert(!(ka[i].epoch == ka[j].epoch && ka[i].public_key.0@ == ka[j].public_key.0@));
    }
    lemma_pairwise_transfer(ka, kb, same_key);
    assert forall|i: int, j: int| 0 <= i < j < kb.len() implies !((#[trigger] kb[i]).epoch == (#[trigger] kb[j]).epoch
        && kb[i].public_key.0@ == kb[j].public_key.0@) by {
        assert(!same_key(kb[i], kb[j]));
    }
    lemma_pairwise_transfer(ka, kb, |x: EncryptionKeyFact, y: EncryptionKeyFact| key_eq(x, y));
    if exists|i: int| 0 <= i < pb.len() && !keys_distinct((#[trigger] pb[i]).allowed_ips@) {
        let i = choose|i: int| 0 <= i < pb.len() && !keys_distinct((#[trigger] pb[i]).allowed_ips@);
        assert(pb.contains(pb[i]));
        lemma_same_elements(pb, pa, pb[i]);
    }
    lemma_pairwise_transfer(pa, pb, |x: EncryptionPathFact, y: EncryptionPathFact| key_eq(x, y));
}

/// Facts that pass every input check pass them in any order.
pub proof fn lemma_front_transfer(
    model: crate::model::EncryptionModel,
    a: EncryptionContractFacts,
    b: EncryptionContractFacts,
    local: crate::contract::EncryptionNode,
    contract_revision: crate::ids::Revision,
    from: u64,
    until: u64,
)
    requires
        facts_reordered(a, b),
        contract_input_error(model, a, local, contract_revision, from, until) is None,
    ensures
        contract_input_error(model, b, local, contract_revision, from, until) is None,
{
    to_multiset_len(a.endpoints@);
    to_multiset_len(b.endpoints@);
    to_multiset_len(a.keys@);
    to_multiset_len(b.keys@);
    to_multiset_len(a.paths@);
    to_multiset_len(b.paths@);
    to_multiset_len(policy_views(a.policies@));
    to_multiset_len(policy_views(b.policies@));
    lemma_endpoints_transfer(a.endpoints@, b.endpoints@, model.cluster_id@, local);
    lemma_policies_transfer(a.policies@, b.policies@);
    lemma_keys_paths_transfer(a.keys@, b.keys@, a.paths@, b.paths@);
}

/// An element of a rearrangement sits somewhere in the input.
proof fn lemma_found_in<T>(s1: Seq<T>, s2: Seq<T>, i: int) -> (j: int)
    requires
        s1.to_multiset() == s2.to_multiset(),
        0 <= i < s2.len(),
    ensures
        0 <= j < s1.len(),
        s1[j] == s2[i],
{
    assert(s2.contains(s2[i]));
    lemma_same_elements(s1, s2, s2[i]);
    choose|j: int| 0 <= j < s1.len() && s1[j] == s2[i]
}

/// The canonical endpoints of a sequence are those of every rearrangement.
proof fn lemma_endpoints_canonical_transfer(
    out: Seq<EncryptionEndpointFact>,
    a: Seq<EncryptionEndpointFact>,
    b: Seq<EncryptionEndpointFact>,
)
    requires
        a.to_multiset() == b.to_multiset(),
        endpoints_canonical_of(out, a),
    ensures
        endpoints_canonical_of(out, b),
{
    to_multiset_len(a);
    to_multiset_len(b);
    assert forall|i: int| 0 <= i < out.len() implies endpoint_drawn_from(#[trigger] out[i], b) by {
        assert(endpoint_drawn_from(out[i], a));
        reveal(endpoint_drawn_from);
        let j = choose|j: int| 0 <= j < a.len() && endpoint_canonical_of(out[i], a[j]);
        let k = lemma_found_in(b, a, j);
        assert(endpoint_canonical_of(out[i], b[k]));
    }
    assert forall|j: int| 0 <= j < b.len() implies endpoint_kept_in(#[trigger] b[j], out) by {
        let k = lemma_found_in(a, b, j);
        assert(endpoint_kept_in(a[k], out));
    }
}

/// The canonical paths of a sequence are those of every rearrangement.
proof fn lemma_paths_canonical_transfer(out: Seq<EncryptionPathFact>, a: Seq<EncryptionPathFact>, b: Seq<EncryptionPathFact>)
    requires
        a.to_multiset() == b.to_multiset(),
        paths_canonical_of(out, a),
    ensures
        paths_canonical_of(out, b),
{
    to_multiset_len(a);
    to_multiset_len(b);
    assert forall|i: int| 0 <= i < out.len() implies path_drawn_from(#[trigger] out[i], b) by {
        assert(path_drawn_from(out[i], a));
        reveal(path_drawn_from);
        let j = choose|j: int| 0 <= j < a.len() && path_canonical_of(out[i], a[j]);
        let k = lemma_found_in(b, a, j);
        assert(path_canonical_of(out[i], b[k]));
    }
    assert forall|j: int| 0 <= j < b.len() implies path_kept_in(#[trigger] b[j], out) by {
        let k = lemma_found_in(a, b, j);
        assert(path_kept_in(a[k], out));
    }
}

/// The canonical policies of a sequence are those of every sequence whose
/// policy views are a rearrangement of its own.
proof fn lemma_policies_canonical_transfer(
    out: Seq<EncryptionPolicyFact>,
    a: Seq<EncryptionPolicyFact>,
    b: Seq<EncryptionPolicyFact>,
)
    requires
        policy_views(a).to_multiset() == policy_views(b).to_multiset(),
        policies_canonical_of(out, a),
    ensures
        policies_canonical_of(out, b),
{
    let va = policy_views(a);
    let vb = policy_views(b);
    to_multiset_len(va);
    to_multiset_len(vb);
    assert forall|i: int| 0 <= i < out.len() implies policy_drawn_from(#[trigger] out[i], b) by {
        assert(policy_drawn_from(out[i], a));
        reveal(policy_drawn_from);
        let j = choose|j: int| 0 <= j < a.len() && policy_canonical_of(out[i], a[j]);
        let k = lemma_found_in(vb, va, j);
        assert(va[j] == policy_view(a[j]) && vb[k] == policy_view(b[k]));
        assert(policy_canonical_of(out[i], b[k]));
    }
    assert forall|j: int| 0 <= j < b.len() implies policy_kept_in(#[trigger] b[j], out) by {
        let k = lemma_found_in(va, vb, j);
        assert(va[k] == policy_view(a[k]) && vb[j] == policy_view(b[j]));
        assert(policy_kept_in(a[k], out));
        reveal(policy_kept_in);
        let i = choose|i: int| 0 <= i < out.len() && policy_canonical_of(out[i], a[k]);
        assert(policy_canonical_of(out[i], b[j]));
    }
}

/// Canonical facts of `a` are canonical facts of every reordering of `a`.
proof fn lemma_canonical_transfer(
    eps: Seq<EncryptionEndpointFact>,
    pols: Seq<EncryptionPolicyFact>,
    keys: Seq<EncryptionKeyFact>,
    paths: Seq<EncryptionPathFact>,
    a: EncryptionContractFacts,
    b: EncryptionContractFacts,
)
    requires
        facts_reordered(a, b),
        canonical_facts(eps, pols, keys, paths, a),
    ensures
        canonical_facts(eps, pols, keys, paths, b),
{
    lemma_endpoints_canonical_transfer(eps, a.endpoints@, b.endpoints@);
    lemma_policies_canonical_transfer(pols, a.policies@, b.policies@);
    lemma_paths_canonical_transfer(paths, a.paths@, b.paths@);
}

/// A contract compiled from facts is compiled from every reordering of them.
proof fn lemma_compiled_transfer(
    c: AttestedEncryptionPathContract,
    model: crate::model::EncryptionModel,
    a: EncryptionContractFacts,
    b: EncryptionContractFacts,
    local: EncryptionNode,
    contract_revision: Revision,
    from: u64,
    until: u64,
)
    requires
        facts_reordered(a, b),
        contract_compiled(c, model, a, local, contract_revision, from, until),
    ensures
        contract_compiled(c, model, b, local, contract_revision, from, until),
{
    let (eps, pols, keys, paths) = choose|
        eps: Seq<EncryptionEndpointFact>,
        pols: Seq<EncryptionPolicyFact>,
        keys: Seq<EncryptionKeyFact>,
        paths: Seq<EncryptionPathFact>,
    |
        #[trigger] canonical_facts(eps, pols, keys, paths, a) && crate::contract::plan_stage_ok(
            plan_inputs(model, a, pols, keys, paths, from, until),
            eps,
            c.local_node,
        ) && exists|built: Seq<crate::contract::AttestedEncryptionPathPlan>|
            #[trigger] crate::contract::plans_built_for(
                built,
                plan_inputs(model, a, pols, keys, paths, from, until),
                eps,
                crate::contract::plan_pairs(eps, c.local_node),
            ) && c.plans@.to_multiset() == built.to_multiset();
    lemma_canonical_transfer(eps, pols, keys, paths, a, b);
    assert(plan_inputs(model, a, pols, keys, paths, from, until) == plan_inputs(model, b, pols, keys, paths, from, until));
}

/// Issuing does not depend on the order of the facts: facts given in
/// another order (and policy IDs in another order) issue a contract exactly
/// when the given order does, and then one equal to it field by field.
pub proof fn lemma_issue_order_free(
    r1: Result<AttestedEncryptionPathContract, EncryptionContractError>,
    r2: Result<AttestedEncryptionPathContract, EncryptionContractError>,
    model: crate::model::EncryptionModel,
    f1: EncryptionContractFacts,
    f2: EncryptionContractFacts,
    local: EncryptionNode,
    contract_revision: Revision,
    valid_from_unix_ms: u64,
    valid_until_unix_ms: u64,
)
    requires
        facts_reordered(f1, f2),
        issued_as(r1, model, f1, local, contract_revision, valid_from_unix_ms, valid_until_unix_ms),
        issued_as(r2, model, f2, local, contract_revision, valid_from_unix_ms, valid_until_unix_ms),
    ensures
        (r1 is Ok) == (r2 is Ok),
        r1 is Ok ==> contract_same(r1->Ok_0, r2->Ok_0),
{
    let from = valid_from_unix_ms;
    let until = valid_until_unix_ms;
    if r1 is Ok {
        let c = r1->Ok_0;
        lemma_front_transfer(model, f1, f2, local, contract_revision, from, until);
        lemma_compiled_transfer(c, model, f1, f2, local, contract_revision, from, until);
        assert(issued_as(Ok(c), model, f2, local, contract_revision, from, until));
        crate::replay::lemma_issue_deterministic(Ok(c), r2, model, f2, local, contract_revision, from, until);
    } else if r2 is Ok {
        let c = r2->Ok_0;
        lemma_reordered_symmetric(f1, f2);
        lemma_front_transfer(model, f2, f1, local, contract_revision, from, until);
        lemma_compiled_transfer(c, model, f2, f1, local, contract_revision, from, until);
        assert(issued_as(Ok(c), model, f1, local, contract_revision, from, until));
        crate::replay::lemma_issue_deterministic(Ok(c), r1, model, f1, local, contract_revision, from, until);
    }
}

proof fn lemma_reordered_symmetric(a: EncryptionContractFacts, b: EncryptionContractFacts)
    requires
        facts_reordered(a, b),
    ensures
        facts_reordered(b, a),
{
}

/// An intent whose own checks pass.
pub open spec fn intent_ok(x: EncryptionIntent) -> bool {
    &&& model_text(x.name@)
    &&& model_text(x.uid@)
    &&& selector_error(x.sources) is None
    &&& selector_error(x.destinations) is None
}

/// Intents that pass every check: each on its own, with names and UIDs
/// pairwise distinct.
pub open spec fn intents_valid(v: Seq<EncryptionIntent>) -> bool {
    &&& forall|i: int| 0 <= i < v.len() ==> intent_ok(#[trigger] v[i])
    &&& forall|i: int, j: int| 0 <= i < j < v.len() ==> !((#[trigger] v[i]).name@ == (#[trigger] v[j]).name@
        || v[i].uid@ == v[j].uid@)
}

/// The checks of intents in order pass exactly when the intents are valid.
proof fn lemma_first_intent_error_none(v: Seq<EncryptionIntent>)
    ensures
        (first_intent_error(v) is None) == intents_valid(v),
    decreases v.len(),
{
    if v.len() > 0 {
        let w = v.drop_last();
        let x = v.last();
        lemma_first_intent_error_none(w);
        assert forall|i: int| 0 <= i < w.len() implies #[trigger] w[i] == v[i] by {}
        if intents_valid(v) {
            assert forall|i: int| 0 <= i < w.len() implies intent_ok(#[trigger] w[i]) by {
                assert(w[i] == v[i]);
            }
            assert forall|i: int, j: int| 0 <= i < j < w.len() implies !((#[trigger] w[i]).name@ == (#[trigger] w[j]).name@
                || w[i].uid@ == w[j].uid@) by {
                assert(w[i] == v[i] && w[j] == v[j]);
            }
            assert(intent_ok(v[v.len() - 1]));
            if intent_names(w).contains(x.name@) {
                let k = choose|k: int| 0 <= k < intent_names(w).len() && intent_names(w)[k] == x.name@;
                assert(!(v[k].name@ == v[v.len() - 1].name@ || v[k].uid@ == v[v.len() - 1].uid@));
            }
            if intent_uids(w).contains(x.uid@) {
                let k = choose|k: int| 0 <= k < intent_uids(w).len() && intent_uids(w)[k] == x.uid@;
                assert(!(v[k].name@ == v[v.len() - 1].name@ || v[k].uid@ == v[v.len() - 1].uid@));
            }
            assert(intent_error(w, x) is None);
        } else if first_intent_error(v) is None {
            assert(first_intent_error(w) is None);
            assert(intent_error(w, x) is None);
            assert forall|i: int| 0 <= i < v.len() implies intent_ok(#[trigger] v[i]) by {
                if i < w.len() {
                    assert(w[i] == v[i]);
                }
            }
            assert forall|i: int, j: int| 0 <= i < j < v.len() implies !((#[trigger] v[i]).name@ == (#[trigger] v[j]).name@
                || v[i].uid@ == v[j].uid@) by {
                if j < w.len() {
                    assert(w[i] == v[i] && w[j] == v[j]);
                } else {
                    assert(intent_names(w)[i] == v[i].name@);
                    assert(intent_uids(w)[i] == v[i].uid@);
                }
            }
        }
    }
}

/// Intents that pass every check pass them in any order.
proof fn lemma_intents_valid_transfer(a: Seq<EncryptionIntent>, b: Seq<EncryptionIntent>)
    requires
        a.to_multiset() == b.to_multiset(),
        intents_valid(a),
    ensures
        intents_valid(b),
{
    assert forall|i: int| 0 <= i < b.len() implies intent_ok(#[trigger] b[i]) by {
        let k = lemma_found_in(a, b, i);
    }
    let clash = |x: EncryptionIntent, y: EncryptionIntent| x.name@ == y.name@ || x.uid@ == y.uid@;
    assert forall|i: int, j: int| 0 <= i < j < a.len() implies !clash(#[trigger] a[i], #[trigger] a[j]) by {}
    lemma_pairwise_transfer(a, b, clash);
    assert forall|i: int, j: int| 0 <= i < j < b.len() implies !((#[trigger] b[i]).name@ == (#[trigger] b[j]).name@
        || b[i].uid@ == b[j].uid@) by {
        assert(!clash(b[i], b[j]));
    }
}

/// Two sequences strictly ordered by intent key with the same elements are
/// the same sequence.
proof fn lemma_intents_sorted_unique(a: Seq<EncryptionIntent>, b: Seq<EncryptionIntent>)
    requires
        intents_sorted(a),
        intents_sorted(b),
        a.to_multiset() == b.to_multiset(),
    ensures
        a == b,
    decreases a.len(),
{
    to_multiset_len(a);
    to_multiset_len(b);
    if a.len() > 0 {
        let k = lemma_found_in(b, a, 0);
        let m = lemma_found_in(a, b, 0);
        if k > 0 && m > 0 {
            assert(intent_key_lt(b[0], b[k]));
            assert(intent_key_lt(a[0], a[m]));
            crate::model::lemma_intent_key_lt_asymmetric(a[0], b[0]);
        }
        assert(a[0] == b[0]);
        to_multiset_remove(a, 0);
        to_multiset_remove(b, 0);
        assert(a.remove(0) =~= a.drop_first());
        assert(b.remove(0) =~= b.drop_first());
        lemma_intents_sorted_unique(a.drop_first(), b.drop_first());
        assert(a =~= seq![a[0]] + a.drop_first());
        assert(b =~= seq![b[0]] + b.drop_first());
    } else {
        assert(a =~= b);
    }
}

/// Normalizing does not depend on the order of the intents: intents given
/// in another order normalize exactly when the given order does, and
/// then to the same model.
pub proof fn lemma_normalize_order_free(
    r1: Result<EncryptionModel, EncryptionModelError>,
    r2: Result<EncryptionModel, EncryptionModelError>,
    cluster_id: String,
    baseline: EncryptionBaseline,
    i1: Seq<EncryptionIntent>,
    i2: Seq<EncryptionIntent>,
)
    requires
        i1.to_multiset() == i2.to_multiset(),
        normalized_as(r1, cluster_id, baseline, i1),
        normalized_as(r2, cluster_id, baseline, i2),
    ensures
        (r1 is Ok) == (r2 is Ok),
        r1 is Ok ==> {
            let m1 = r1->Ok_0;
            let m2 = r2->Ok_0;
            &&& m1.schema_version == m2.schema_version
            &&& m1.cluster_id == m2.cluster_id
            &&& m1.baseline == m2.baseline
            &&& m1.intents@ == m2.intents@
        },
{
    to_multiset_len(i1);
    to_multiset_len(i2);
    lemma_first_intent_error_none(i1);
    lemma_first_intent_error_none(i2);
    if intents_valid(i1) {
        lemma_intents_valid_transfer(i1, i2);
    }
    if intents_valid(i2) {
        lemma_intents_valid_transfer(i2, i1);
    }
    if r1 is Ok && r2 is Ok {
        lemma_intents_sorted_unique(r1->Ok_0.intents@, r2->Ok_0.intents@);
    }
}

} // verus!
