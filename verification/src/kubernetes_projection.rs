//! Fail-closed projection of Kubernetes placement into encryption facts.
//!
//! The projection validates one complete Node cut, admits every workload that
//! is not on the host network only where its addresses lie inside its own
//! Node's blocks and avoid the Nodes' proof beacons, and records one exact
//! owner per address.

use vstd::prelude::*;
use vstd::seq_lib::to_multiset_contains;
use crate::address::{address_lt, prefix_canonical, prefix_contains, prefixes_overlap, IpAddr, IpPrefix};
use crate::contract::{lemma_text_key, node_same, EncryptionCapability, EncryptionEndpointFact, EncryptionNode};
use crate::ids::IdentityId;
use crate::kernel_plan::{beacon_for, beacon_prefixes, derive_wireguard_proof_addresses, proof_addresses_derivable, ProofBeacon};
use crate::model::{
    model_text, validate_text, MAX_ENCRYPTION_ENDPOINTS, MAX_ENCRYPTION_PREFIXES_PER_NODE,
    MAX_ENCRYPTION_UNDERLAY_ADDRESSES_PER_NODE,
};
use crate::sorting::{
    key_eq, key_found_in, keys_distinct, lemma_sorted_keys_align, lemma_sorted_same, lemma_sorted_unique, sort_by_key,
    sort_unique_by_key, sorted_by_key, strictly_sorted_by_key, Keyed,
};
use crate::text::{compare_text, text_eq, text_lt};

verus! {

/// Whole-cut address budget, independent of identity-pair cardinality.
pub const MAX_ENCRYPTION_ENDPOINT_ADDRESSES: usize = 65536;

/// Largest Node cut that one plan covers.
pub const MAX_ENCRYPTION_PLAN_MEMBERS: usize = 4096;

/// One Node as the placement source reports it.
#[derive(Clone, Debug)]
pub struct KubernetesEncryptionNodeSnapshot {
    pub name: String,
    pub uid: String,
    pub ready: bool,
    pub managed: bool,
    pub pod_cidrs: Vec<IpPrefix>,
    pub underlay_addresses: Vec<IpAddr>,
}

/// One workload as the placement source reports it.
#[derive(Clone, Debug)]
pub struct KubernetesEncryptionWorkloadSnapshot {
    pub workload_uid: String,
    pub identity: IdentityId,
    pub node_name: String,
    pub host_network: bool,
    pub addresses: Vec<IpAddr>,
}

/// An exact address owner, never an identity-wide transport permission.
#[derive(Clone, Debug)]
pub struct EncryptionEndpointAddressFact {
    pub address: IpAddr,
    pub workload_uid: String,
    pub identity: IdentityId,
    pub node_uid: String,
}

#[derive(Clone, Copy, Debug, PartialEq, Eq, Structural)]
pub enum KubernetesEncryptionProjectionError {
    InvalidInput,
    InvalidNode,
    InvalidWorkload,
    InvalidPolicy,
    AmbiguousPrefix,
    Capacity,
}

/// Validated placement without policy-pair enumeration or cryptographic work.
/// Private fields keep callers from replacing validated address ownership.
#[derive(Clone, Debug)]
pub struct KubernetesEncryptionPlacement {
    cluster_id: String,
    nodes: Vec<EncryptionNode>,
    endpoints: Vec<EncryptionEndpointFact>,
    addresses: Vec<EncryptionEndpointAddressFact>,
}

impl KubernetesEncryptionPlacement {
    pub closed spec fn cluster_id_view(&self) -> Seq<char> {
        self.cluster_id@
    }

    pub closed spec fn nodes_view(&self) -> Seq<EncryptionNode> {
        self.nodes@
    }

    pub closed spec fn endpoints_view(&self) -> Seq<EncryptionEndpointFact> {
        self.endpoints@
    }

    pub closed spec fn addresses_view(&self) -> Seq<EncryptionEndpointAddressFact> {
        self.addresses@
    }

    pub fn cluster_id(&self) -> (r: &str)
        ensures
            r@ == self.cluster_id_view(),
    {
        self.cluster_id.as_str()
    }

    pub fn nodes(&self) -> (r: &[EncryptionNode])
        ensures
            r@ == self.nodes_view(),
    {
        self.nodes.as_slice()
    }

    pub fn endpoints(&self) -> (r: &[EncryptionEndpointFact])
        ensures
            r@ == self.endpoints_view(),
    {
        self.endpoints.as_slice()
    }

    pub fn addresses(&self) -> (r: &[EncryptionEndpointAddressFact])
        ensures
            r@ == self.addresses_view(),
    {
        self.addresses.as_slice()
    }
}

impl Keyed for KubernetesEncryptionWorkloadSnapshot {
    open spec fn key_lt(self, other: Self) -> bool {
        text_lt(self.workload_uid@, other.workload_uid@)
    }

    proof fn lemma_key_order(a: Self, b: Self, c: Self) {
        lemma_text_key(a.workload_uid@, b.workload_uid@, c.workload_uid@);
    }

    fn key_less(&self, other: &Self) -> (r: bool) {
        compare_text(self.workload_uid.as_str(), other.workload_uid.as_str()) < 0
    }
}

impl Keyed for EncryptionNode {
    open spec fn key_lt(self, other: Self) -> bool {
        text_lt(self.name@, other.name@)
    }

    proof fn lemma_key_order(a: Self, b: Self, c: Self) {
        lemma_text_key(a.name@, b.name@, c.name@);
    }

    fn key_less(&self, other: &Self) -> (r: bool) {
        compare_text(self.name.as_str(), other.name.as_str()) < 0
    }
}

impl Keyed for EncryptionEndpointAddressFact {
    open spec fn key_lt(self, other: Self) -> bool {
        address_lt(self.address, other.address)
    }

    proof fn lemma_key_order(a: Self, b: Self, c: Self) {
    }

    fn key_less(&self, other: &Self) -> (r: bool) {
        crate::address::address_less(self.address, other.address)
    }
}

/// Node `i` fails admission: not ready or managed, bad or repeated name or
/// UID, block or underlay counts out of bounds, or a noncanonical block.
pub open spec fn node_rejected(nodes: Seq<KubernetesEncryptionNodeSnapshot>, i: int) -> bool {
    let n = nodes[i];
    ||| !n.ready
    ||| !n.managed
    ||| !model_text(n.name@)
    ||| !model_text(n.uid@)
    ||| (exists|j: int| 0 <= j < i && (#[trigger] nodes[j]).name@ == n.name@)
    ||| (exists|j: int| 0 <= j < i && (#[trigger] nodes[j]).uid@ == n.uid@)
    ||| n.pod_cidrs@.len() == 0
    ||| n.pod_cidrs@.len() > MAX_ENCRYPTION_PREFIXES_PER_NODE
    ||| n.underlay_addresses@.len() == 0
    ||| n.underlay_addresses@.len() > MAX_ENCRYPTION_UNDERLAY_ADDRESSES_PER_NODE
    ||| (exists|k: int| 0 <= k < n.pod_cidrs@.len() && !prefix_canonical(#[trigger] n.pod_cidrs@[k]))
}

/// Two different Nodes hold overlapping blocks.
pub open spec fn blocks_ambiguous(nodes: Seq<KubernetesEncryptionNodeSnapshot>) -> bool {
    exists|a: int, b: int, k: int, m: int|
        0 <= a < b < nodes.len() && 0 <= k < nodes[a].pod_cidrs@.len() && 0 <= m < nodes[b].pod_cidrs@.len()
            && nodes[a].uid@ != nodes[b].uid@ && #[trigger] prefixes_overlap(
            nodes[a].pod_cidrs@[k],
            nodes[b].pod_cidrs@[m],
        )
}

/// What the Node cut is refused for, in the order the checks are made.
pub open spec fn nodes_error(
    cluster_id: Seq<char>,
    nodes: Seq<KubernetesEncryptionNodeSnapshot>,
) -> Option<KubernetesEncryptionProjectionError> {
    if !model_text(cluster_id) || nodes.len() == 0 {
        Some(KubernetesEncryptionProjectionError::InvalidInput)
    } else if nodes.len() > MAX_ENCRYPTION_PLAN_MEMBERS {
        Some(KubernetesEncryptionProjectionError::Capacity)
    } else if exists|i: int| 0 <= i < nodes.len() && #[trigger] node_rejected(nodes, i) {
        Some(KubernetesEncryptionProjectionError::InvalidNode)
    } else if blocks_ambiguous(nodes) {
        Some(KubernetesEncryptionProjectionError::AmbiguousPrefix)
    } else {
        None
    }
}

fn node_checked(nodes: &Vec<KubernetesEncryptionNodeSnapshot>, i: usize) -> (r: bool)
    requires
        i < nodes@.len(),
    ensures
        r == !node_rejected(nodes@, i as int),
{
    let n = &nodes[i];
    if !n.ready || !n.managed || !validate_text(n.name.as_str()) || !validate_text(n.uid.as_str())
        || n.pod_cidrs.len() == 0 || n.pod_cidrs.len() > MAX_ENCRYPTION_PREFIXES_PER_NODE
        || n.underlay_addresses.len() == 0 || n.underlay_addresses.len() > MAX_ENCRYPTION_UNDERLAY_ADDRESSES_PER_NODE {
        return false;
    }
    let mut j: usize = 0;
    while j < i
        invariant
            i < nodes@.len(),
            j <= i,
            n == nodes@[i as int],
            forall|q: int| 0 <= q < j ==> (#[trigger] nodes@[q]).name@ != n.name@ && nodes@[q].uid@ != n.uid@,
        decreases i - j,
    {
        if text_eq(nodes[j].name.as_str(), n.name.as_str()) || text_eq(nodes[j].uid.as_str(), n.uid.as_str()) {
            assert(nodes@[j as int].name@ == nodes@[i as int].name@ || nodes@[j as int].uid@ == nodes@[i as int].uid@);
            return false;
        }
        j = j + 1;
    }
    let mut k: usize = 0;
    while k < n.pod_cidrs.len()
        invariant
            i < nodes@.len(),
            n == nodes@[i as int],
            k <= n.pod_cidrs@.len(),
            forall|q: int| 0 <= q < k ==> prefix_canonical(#[trigger] n.pod_cidrs@[q]),
        decreases n.pod_cidrs@.len() - k,
    {
        if !n.pod_cidrs[k].is_canonical() {
            assert(!prefix_canonical(nodes@[i as int].pod_cidrs@[k as int]));
            return false;
        }
        k = k + 1;
    }
    true
}

fn blocks_overlap_between(
    nodes: &Vec<KubernetesEncryptionNodeSnapshot>,
    a: usize,
    b: usize,
) -> (r: bool)
    requires
        a < b < nodes@.len(),
    ensures
        r == exists|k: int, m: int|
            0 <= k < nodes@[a as int].pod_cidrs@.len() && 0 <= m < nodes@[b as int].pod_cidrs@.len()
                && #[trigger] prefixes_overlap(nodes@[a as int].pod_cidrs@[k], nodes@[b as int].pod_cidrs@[m]),
{
    let x = &nodes[a].pod_cidrs;
    let y = &nodes[b].pod_cidrs;
    let mut k: usize = 0;
    while k < x.len()
        invariant
            x@ == nodes@[a as int].pod_cidrs@,
            y@ == nodes@[b as int].pod_cidrs@,
            k <= x@.len(),
            forall|p: int, m: int| 0 <= p < k && 0 <= m < y@.len() ==> !#[trigger] prefixes_overlap(x@[p], y@[m]),
        decreases x@.len() - k,
    {
        let mut m: usize = 0;
        while m < y.len()
            invariant
                x@ == nodes@[a as int].pod_cidrs@,
                y@ == nodes@[b as int].pod_cidrs@,
                k < x@.len(),
                m <= y@.len(),
                forall|p: int, q: int| 0 <= p < k && 0 <= q < y@.len() ==> !#[trigger] prefixes_overlap(x@[p], y@[q]),
                forall|q: int| 0 <= q < m ==> !#[trigger] prefixes_overlap(x@[k as int], y@[q]),
            decreases y@.len() - m,
        {
            if x[k].overlaps(y[m]) {
                return true;
            }
            m = m + 1;
        }
        k = k + 1;
    }
    false
}

/// Validates one complete Node cut.
pub fn validate_nodes(cluster_id: &str, nodes: &Vec<KubernetesEncryptionNodeSnapshot>) -> (r: Result<
    (),
    KubernetesEncryptionProjectionError,
>)
    ensures
        match nodes_error(cluster_id@, nodes@) {
            Some(e) => r == Err::<(), KubernetesEncryptionProjectionError>(e),
            None => r is Ok,
        },
{
    if !validate_text(cluster_id) || nodes.len() == 0 {
        return Err(KubernetesEncryptionProjectionError::InvalidInput);
    }
    if nodes.len() > MAX_ENCRYPTION_PLAN_MEMBERS {
        return Err(KubernetesEncryptionProjectionError::Capacity);
    }
    let mut i: usize = 0;
    while i < nodes.len()
        invariant
            model_text(cluster_id@),
            0 < nodes@.len() <= MAX_ENCRYPTION_PLAN_MEMBERS,
            i <= nodes@.len(),
            forall|q: int| 0 <= q < i ==> !#[trigger] node_rejected(nodes@, q),
        decreases nodes@.len() - i,
    {
        if !node_checked(nodes, i) {
            assert(node_rejected(nodes@, i as int));
            return Err(KubernetesEncryptionProjectionError::InvalidNode);
        }
        i = i + 1;
    }
    let mut a: usize = 0;
    while a < nodes.len()
        invariant
            model_text(cluster_id@),
            0 < nodes@.len() <= MAX_ENCRYPTION_PLAN_MEMBERS,
            a <= nodes@.len(),
            forall|q: int| 0 <= q < nodes@.len() ==> !#[trigger] node_rejected(nodes@, q),
            forall|p: int, q: int, k: int, m: int|
                0 <= p < a && p < q < nodes@.len() && 0 <= k < nodes@[p].pod_cidrs@.len() && 0 <= m
                    < nodes@[q].pod_cidrs@.len() && nodes@[p].uid@ != nodes@[q].uid@ ==> !#[trigger] prefixes_overlap(
                    nodes@[p].pod_cidrs@[k],
                    nodes@[q].pod_cidrs@[m],
                ),
        decreases nodes@.len() - a,
    {
        let mut b: usize = a + 1;
        while b < nodes.len()
            invariant
                model_text(cluster_id@),
                0 < nodes@.len() <= MAX_ENCRYPTION_PLAN_MEMBERS,
                a < b <= nodes@.len(),
                forall|q: int| 0 <= q < nodes@.len() ==> !#[trigger] node_rejected(nodes@, q),
                forall|p: int, q: int, k: int, m: int|
                    0 <= p < a && p < q < nodes@.len() && 0 <= k < nodes@[p].pod_cidrs@.len() && 0 <= m
                        < nodes@[q].pod_cidrs@.len() && nodes@[p].uid@ != nodes@[q].uid@ ==> !#[trigger] prefixes_overlap(
                        nodes@[p].pod_cidrs@[k],
                        nodes@[q].pod_cidrs@[m],
                    ),
                forall|q: int, k: int, m: int|
                    a < q < b && 0 <= k < nodes@[a as int].pod_cidrs@.len() && 0 <= m < nodes@[q].pod_cidrs@.len()
                        && nodes@[a as int].uid@ != nodes@[q].uid@ ==> !#[trigger] prefixes_overlap(
                        nodes@[a as int].pod_cidrs@[k],
                        nodes@[q].pod_cidrs@[m],
                    ),
            decreases nodes@.len() - b,
        {
            if !text_eq(nodes[a].uid.as_str(), nodes[b].uid.as_str()) && blocks_overlap_between(nodes, a, b) {
                proof {
                    let (k, m) = choose|k: int, m: int|
                        0 <= k < nodes@[a as int].pod_cidrs@.len() && 0 <= m < nodes@[b as int].pod_cidrs@.len()
                            && #[trigger] prefixes_overlap(nodes@[a as int].pod_cidrs@[k], nodes@[b as int].pod_cidrs@[m]);
                    assert(prefixes_overlap(nodes@[a as int].pod_cidrs@[k], nodes@[b as int].pod_cidrs@[m]));
                    assert(blocks_ambiguous(nodes@));
                }
                return Err(KubernetesEncryptionProjectionError::AmbiguousPrefix);
            }
            b = b + 1;
        }
        a = a + 1;
    }
    Ok(())
}

/// Workloads that are not on the host network, counted.
pub open spec fn endpoint_count(ws: Seq<KubernetesEncryptionWorkloadSnapshot>) -> nat
    decreases ws.len(),
{
    if ws.len() == 0 {
        0
    } else {
        endpoint_count(ws.drop_last()) + if ws.last().host_network { 0nat } else { 1nat }
    }
}

/// Addresses of the workloads that are not on the host network, counted.
pub open spec fn address_count(ws: Seq<KubernetesEncryptionWorkloadSnapshot>) -> nat
    decreases ws.len(),
{
    if ws.len() == 0 {
        0
    } else {
        address_count(ws.drop_last()) + if ws.last().host_network { 0nat } else { ws.last().addresses@.len() }
    }
}

/// The endpoint or address budget of the cut is exceeded.
pub open spec fn capacity_exceeded(ws: Seq<KubernetesEncryptionWorkloadSnapshot>) -> bool {
    endpoint_count(ws) > MAX_ENCRYPTION_ENDPOINTS || address_count(ws) > MAX_ENCRYPTION_ENDPOINT_ADDRESSES
}

/// No two workloads share a UID.
pub open spec fn uids_distinct(ws: Seq<KubernetesEncryptionWorkloadSnapshot>) -> bool {
    forall|i: int, j: int| 0 <= i < j < ws.len() ==> (#[trigger] ws[i]).workload_uid@ != (#[trigger] ws[j]).workload_uid@
}

/// The workloads that are not on the host network, in order.
pub open spec fn nonhost(ws: Seq<KubernetesEncryptionWorkloadSnapshot>) -> Seq<KubernetesEncryptionWorkloadSnapshot>
    decreases ws.len(),
{
    if ws.len() == 0 {
        seq![]
    } else if ws.last().host_network {
        nonhost(ws.drop_last())
    } else {
        nonhost(ws.drop_last()).push(ws.last())
    }
}

/// Node `j` carries `name`.
pub open spec fn node_named(nodes: Seq<KubernetesEncryptionNodeSnapshot>, name: Seq<char>, j: int) -> bool {
    0 <= j < nodes.len() && nodes[j].name@ == name
}

/// A workload fails admission on its own Node: reserved identity, bad UID,
/// no address, an address outside every block, or an address on a beacon.
pub open spec fn workload_rejected(
    w: KubernetesEncryptionWorkloadSnapshot,
    blocks: Seq<IpPrefix>,
    beacons: Seq<ProofBeacon>,
) -> bool {
    ||| w.identity.0 == 0
    ||| !model_text(w.workload_uid@)
    ||| w.addresses@.len() == 0
    ||| (exists|k: int| 0 <= k < w.addresses@.len() && !address_in_blocks(blocks, #[trigger] w.addresses@[k]))
    ||| (exists|k: int, b: int|
        #![trigger blocks[b], w.addresses@[k]]
        0 <= k < w.addresses@.len() && 0 <= b < blocks.len() && beacon_for(beacons, blocks[b])->0
            == w.addresses@[k])
}

/// Some block contains `a`.
pub open spec fn address_in_blocks(blocks: Seq<IpPrefix>, a: IpAddr) -> bool {
    exists|b: int| 0 <= b < blocks.len() && #[trigger] prefix_contains(blocks[b], a)
}

/// An address of `w` is already owned by an earlier workload, or `w` lists
/// one address twice.
pub open spec fn addresses_collide(
    w: KubernetesEncryptionWorkloadSnapshot,
    prior: Seq<KubernetesEncryptionWorkloadSnapshot>,
) -> bool {
    ||| (exists|k: int, x: int, q: int|
        0 <= k < w.addresses@.len() && 0 <= x < prior.len() && 0 <= q < prior[x].addresses@.len()
            && #[trigger] prior[x].addresses@[q] == #[trigger] w.addresses@[k])
    ||| (exists|k1: int, k2: int|
        0 <= k1 < k2 < w.addresses@.len() && #[trigger] w.addresses@[k1] == #[trigger] w.addresses@[k2])
}

/// Why workload `w` is refused after the admitted workloads `prior`.
pub open spec fn workload_error(
    w: KubernetesEncryptionWorkloadSnapshot,
    prior: Seq<KubernetesEncryptionWorkloadSnapshot>,
    nodes: Seq<KubernetesEncryptionNodeSnapshot>,
    beacons: Seq<ProofBeacon>,
) -> Option<KubernetesEncryptionProjectionError> {
    if w.host_network {
        None
    } else if !(exists|j: int| node_named(nodes, w.node_name@, j)) {
        Some(KubernetesEncryptionProjectionError::InvalidWorkload)
    } else {
        let j = choose|j: int| node_named(nodes, w.node_name@, j);
        if !proof_addresses_derivable(nodes[j].pod_cidrs@, beacons) {
            Some(KubernetesEncryptionProjectionError::InvalidNode)
        } else if workload_rejected(w, nodes[j].pod_cidrs@, beacons) || addresses_collide(w, prior) {
            Some(KubernetesEncryptionProjectionError::InvalidWorkload)
        } else {
            None
        }
    }
}

/// The first refusal met when the workloads are admitted in order.
pub open spec fn placement_error(
    ws: Seq<KubernetesEncryptionWorkloadSnapshot>,
    nodes: Seq<KubernetesEncryptionNodeSnapshot>,
    beacons: Seq<ProofBeacon>,
) -> Option<KubernetesEncryptionProjectionError>
    decreases ws.len(),
{
    if ws.len() == 0 {
        None
    } else {
        match placement_error(ws.drop_last(), nodes, beacons) {
            Some(e) => Some(e),
            None => workload_error(ws.last(), nonhost(ws.drop_last()), nodes, beacons),
        }
    }
}

/// The capabilities that every projected Node is given.
pub open spec fn all_capabilities() -> Seq<EncryptionCapability> {
    seq![
        EncryptionCapability::KernelWireGuard,
        EncryptionCapability::DualStackUnderlay,
        EncryptionCapability::PolicyRouting,
        EncryptionCapability::TwoEpochRotation,
        EncryptionCapability::EncryptedPathChallenge,
    ]
}

/// `n` is the projection of snapshot `s`: its blocks and underlay addresses
/// sorted, all capabilities granted.
pub open spec fn node_projected(cluster_id: Seq<char>, s: KubernetesEncryptionNodeSnapshot, n: EncryptionNode) -> bool {
    &&& n.cluster_id@ == cluster_id
    &&& n.name@ == s.name@
    &&& n.uid@ == s.uid@
    &&& n.pod_cidrs@.to_multiset() == s.pod_cidrs@.to_multiset()
    &&& sorted_by_key(n.pod_cidrs@)
    &&& n.underlay_addresses@.to_multiset() == s.underlay_addresses@.to_multiset()
    &&& sorted_by_key(n.underlay_addresses@)
    &&& n.capabilities@ == all_capabilities()
}

/// `n` is the projection of some snapshot.
pub open spec fn projected_from_some(
    cluster_id: Seq<char>,
    snapshots: Seq<KubernetesEncryptionNodeSnapshot>,
    n: EncryptionNode,
) -> bool {
    exists|j: int| 0 <= j < snapshots.len() && #[trigger] node_projected(cluster_id, snapshots[j], n)
}

/// Snapshot `s` is projected to some Node of `nodes`.
pub open spec fn projected_to_some(cluster_id: Seq<char>, s: KubernetesEncryptionNodeSnapshot, nodes: Seq<EncryptionNode>) -> bool {
    exists|i: int| 0 <= i < nodes.len() && #[trigger] node_projected(cluster_id, s, nodes[i])
}

/// `nodes` are the projections of `snapshots`, sorted by name.
pub open spec fn nodes_projected(
    cluster_id: Seq<char>,
    snapshots: Seq<KubernetesEncryptionNodeSnapshot>,
    nodes: Seq<EncryptionNode>,
) -> bool {
    &&& nodes.len() == snapshots.len()
    &&& strictly_sorted_by_key(nodes)
    &&& forall|i: int| 0 <= i < nodes.len() ==> #[trigger] projected_from_some(cluster_id, snapshots, nodes[i])
    &&& forall|j: int| 0 <= j < snapshots.len() ==> #[trigger] projected_to_some(cluster_id, snapshots[j], nodes)
}

/// `e` is the endpoint of workload `w`, on its projected Node.
pub open spec fn endpoint_of(e: EncryptionEndpointFact, w: KubernetesEncryptionWorkloadSnapshot, nodes: Seq<EncryptionNode>) -> bool {
    &&& e.identity == w.identity
    &&& e.workload_uid@ == w.workload_uid@
    &&& exists|m: int| 0 <= m < nodes.len() && nodes[m].name@ == w.node_name@ && #[trigger] node_same(e.node, nodes[m])
}

/// `o` records address `k` of workload `w` and the UID of its Node.
pub open spec fn owner_of(
    o: EncryptionEndpointAddressFact,
    w: KubernetesEncryptionWorkloadSnapshot,
    k: int,
    nodes: Seq<KubernetesEncryptionNodeSnapshot>,
) -> bool {
    &&& o.address == w.addresses@[k]
    &&& o.workload_uid@ == w.workload_uid@
    &&& o.identity == w.identity
    &&& exists|j: int| #[trigger] node_named(nodes, w.node_name@, j) && o.node_uid@ == nodes[j].uid@
}

/// `o` records an address of one of the workloads `hs`.
pub open spec fn owned_by_some(
    o: EncryptionEndpointAddressFact,
    hs: Seq<KubernetesEncryptionWorkloadSnapshot>,
    nodes: Seq<KubernetesEncryptionNodeSnapshot>,
) -> bool {
    exists|x: int, k: int| 0 <= x < hs.len() && 0 <= k < hs[x].addresses@.len() && #[trigger] owner_of(o, hs[x], k, nodes)
}

/// Address `k` of `w` has an owner in `owners`.
pub open spec fn has_owner(
    owners: Seq<EncryptionEndpointAddressFact>,
    w: KubernetesEncryptionWorkloadSnapshot,
    k: int,
    nodes: Seq<KubernetesEncryptionNodeSnapshot>,
) -> bool {
    exists|o: int| 0 <= o < owners.len() && #[trigger] owner_of(owners[o], w, k, nodes)
}

/// Every owner records an address of an admitted workload, and every
/// address of an admitted workload has an owner.
pub open spec fn owners_of(
    owners: Seq<EncryptionEndpointAddressFact>,
    hs: Seq<KubernetesEncryptionWorkloadSnapshot>,
    nodes: Seq<KubernetesEncryptionNodeSnapshot>,
) -> bool {
    &&& forall|o: int| 0 <= o < owners.len() ==> #[trigger] owned_by_some(owners[o], hs, nodes)
    &&& forall|x: int, k: int|
        0 <= x < hs.len() && 0 <= k < hs[x].addresses@.len() ==> #[trigger] has_owner(owners, hs[x], k, nodes)
}

/// `p` is the placement of the workloads `ws`, taken in UID order, on the
/// Node cut `snapshots` of cluster `cluster_id`.
pub open spec fn placement_of(
    p: KubernetesEncryptionPlacement,
    cluster_id: Seq<char>,
    snapshots: Seq<KubernetesEncryptionNodeSnapshot>,
    ws: Seq<KubernetesEncryptionWorkloadSnapshot>,
) -> bool {
    let hs = nonhost(ws);
    &&& p.cluster_id_view() == cluster_id
    &&& nodes_projected(cluster_id, snapshots, p.nodes_view())
    &&& p.endpoints_view().len() == hs.len()
    &&& forall|i: int| 0 <= i < hs.len() ==> endpoint_of(#[trigger] p.endpoints_view()[i], hs[i], p.nodes_view())
    &&& strictly_sorted_by_key(p.addresses_view())
    &&& owners_of(p.addresses_view(), hs, snapshots)
}

proof fn lemma_counts_grow(ws: Seq<KubernetesEncryptionWorkloadSnapshot>, i: int)
    requires
        0 <= i <= ws.len(),
    ensures
        endpoint_count(ws.take(i)) <= endpoint_count(ws),
        address_count(ws.take(i)) <= address_count(ws),
    decreases ws.len(),
{
    if i < ws.len() {
        assert(ws.drop_last().take(i) =~= ws.take(i));
        lemma_counts_grow(ws.drop_last(), i);
    } else {
        assert(ws.take(i) =~= ws);
    }
}

fn capacity_ok(ws: &Vec<KubernetesEncryptionWorkloadSnapshot>) -> (r: bool)
    ensures
        r == !capacity_exceeded(ws@),
{
    let mut endpoints: usize = 0;
    let mut addresses: usize = 0;
    let mut i: usize = 0;
    while i < ws.len()
        invariant
            i <= ws@.len(),
            endpoints == endpoint_count(ws@.take(i as int)),
            addresses == address_count(ws@.take(i as int)),
            endpoints <= MAX_ENCRYPTION_ENDPOINTS,
            addresses <= MAX_ENCRYPTION_ENDPOINT_ADDRESSES,
        decreases ws@.len() - i,
    {
        assert(ws@.take(i + 1).drop_last() =~= ws@.take(i as int));
        if !ws[i].host_network {
            endpoints = endpoints + 1;
            if ws[i].addresses.len() > MAX_ENCRYPTION_ENDPOINT_ADDRESSES - addresses {
                proof {
                    lemma_counts_grow(ws@, i + 1);
                }
                return false;
            }
            addresses = addresses + ws[i].addresses.len();
            if endpoints > MAX_ENCRYPTION_ENDPOINTS {
                proof {
                    lemma_counts_grow(ws@, i + 1);
                }
                return false;
            }
        }
        i = i + 1;
    }
    assert(ws@.take(ws@.len() as int) =~= ws@);
    true
}

proof fn lemma_uids_distinct(ws: Seq<KubernetesEncryptionWorkloadSnapshot>)
    ensures
        keys_distinct(ws) == uids_distinct(ws),
{
    assert forall|i: int, j: int| 0 <= i < j < ws.len() implies key_eq(ws[i], ws[j]) == (ws[i].workload_uid@
        == ws[j].workload_uid@) by {
        lemma_text_key(ws[i].workload_uid@, ws[j].workload_uid@, ws[j].workload_uid@);
        lemma_text_key(ws[j].workload_uid@, ws[i].workload_uid@, ws[i].workload_uid@);
    }
}

fn copy_all<T: Copy>(v: &Vec<T>) -> (r: Vec<T>)
    ensures
        r@ == v@,
{
    let mut r: Vec<T> = Vec::new();
    let mut i: usize = 0;
    while i < v.len()
        invariant
            i <= v@.len(),
            r@ == v@.take(i as int),
        decreases v@.len() - i,
    {
        r.push(v[i]);
        assert(r@ =~= v@.take(i + 1));
        i = i + 1;
    }
    assert(v@.take(i as int) =~= v@);
    r
}

fn project_node(cluster_id: &str, s: &KubernetesEncryptionNodeSnapshot) -> (n: EncryptionNode)
    ensures
        node_projected(cluster_id@, *s, n),
{
    let pods = sort_by_key(copy_all(&s.pod_cidrs));
    let underlay = sort_by_key(copy_all(&s.underlay_addresses));
    let capabilities = vec![
        EncryptionCapability::KernelWireGuard,
        EncryptionCapability::DualStackUnderlay,
        EncryptionCapability::PolicyRouting,
        EncryptionCapability::TwoEpochRotation,
        EncryptionCapability::EncryptedPathChallenge,
    ];
    let n = EncryptionNode {
        cluster_id: cluster_id.to_owned(),
        name: s.name.clone(),
        uid: s.uid.clone(),
        pod_cidrs: pods,
        underlay_addresses: underlay,
        capabilities,
    };
    assert(n.capabilities@ =~= all_capabilities());
    n
}

/// Admitted Nodes have distinct names.
proof fn lemma_names_distinct(nodes: Seq<KubernetesEncryptionNodeSnapshot>, a: int, b: int)
    requires
        forall|q: int| 0 <= q < nodes.len() ==> !#[trigger] node_rejected(nodes, q),
        0 <= a < nodes.len(),
        0 <= b < nodes.len(),
        nodes[a].name@ == nodes[b].name@,
    ensures
        a == b,
{
    if a < b {
        assert(node_rejected(nodes, b));
    } else if b < a {
        assert(node_rejected(nodes, a));
    }
}

fn project_nodes(cluster_id: &str, snapshots: &Vec<KubernetesEncryptionNodeSnapshot>) -> (nodes: Vec<EncryptionNode>)
    requires
        forall|q: int| 0 <= q < snapshots@.len() ==> !#[trigger] node_rejected(snapshots@, q),
    ensures
        nodes_projected(cluster_id@, snapshots@, nodes@),
{
    let mut built: Vec<EncryptionNode> = Vec::new();
    let mut i: usize = 0;
    while i < snapshots.len()
        invariant
            i <= snapshots@.len(),
            built@.len() == i,
            forall|q: int| 0 <= q < i ==> #[trigger] node_projected(cluster_id@, snapshots@[q], built@[q]),
        decreases snapshots@.len() - i,
    {
        let n = project_node(cluster_id, &snapshots[i]);
        built.push(n);
        i = i + 1;
    }
    let ghost b = built@;
    proof {
        assert forall|x: int, y: int| 0 <= x < y < b.len() implies !key_eq(#[trigger] b[x], #[trigger] b[y]) by {
            lemma_text_key(b[x].name@, b[y].name@, b[y].name@);
            if b[x].name@ == b[y].name@ {
                assert(node_projected(cluster_id@, snapshots@[x], b[x]));
                assert(node_projected(cluster_id@, snapshots@[y], b[y]));
                lemma_names_distinct(snapshots@, x, y);
            }
        }
    }
    let sorted = sort_unique_by_key(built);
    match sorted {
        Some(out) => {
            proof {
                vstd::seq_lib::to_multiset_len(out@);
                vstd::seq_lib::to_multiset_len(b);
                assert(out@.len() == snapshots@.len());
                assert(strictly_sorted_by_key(out@));
                vstd::seq_lib::to_multiset_len(out@);
                vstd::seq_lib::to_multiset_len(b);
                assert forall|x: int| 0 <= x < out@.len() implies #[trigger] projected_from_some(cluster_id@, snapshots@, out@[x]) by {
                    assert(out@.contains(out@[x]));
                    to_multiset_contains(out@, out@[x]);
                    to_multiset_contains(b, out@[x]);
                    let q = choose|q: int| 0 <= q < b.len() && b[q] == out@[x];
                    assert(node_projected(cluster_id@, snapshots@[q], b[q]));
                }
                assert forall|j: int| 0 <= j < snapshots@.len() implies #[trigger] projected_to_some(cluster_id@, snapshots@[j], out@) by {
                    assert(node_projected(cluster_id@, snapshots@[j], b[j]));
                    assert(b.contains(b[j]));
                    to_multiset_contains(b, b[j]);
                    to_multiset_contains(out@, b[j]);
                    let x = choose|x: int| 0 <= x < out@.len() && out@[x] == b[j];
                    assert(node_projected(cluster_id@, snapshots@[j], out@[x]));
                }
                assert(nodes_projected(cluster_id@, snapshots@, out@));
            }
            out
        },
        None => {
            proof {
                assert(false);
            }
            Vec::new()
        },
    }
}

fn find_snapshot(snapshots: &Vec<KubernetesEncryptionNodeSnapshot>, name: &str) -> (r: Option<usize>)
    ensures
        r is None ==> !(exists|j: int| node_named(snapshots@, name@, j)),
        r matches Some(j) ==> node_named(snapshots@, name@, j as int),
{
    let mut j: usize = 0;
    while j < snapshots.len()
        invariant
            j <= snapshots@.len(),
            forall|q: int| 0 <= q < j ==> !node_named(snapshots@, name@, q),
        decreases snapshots@.len() - j,
    {
        if text_eq(snapshots[j].name.as_str(), name) {
            return Some(j);
        }
        j = j + 1;
    }
    None
}

fn find_projected(nodes: &Vec<EncryptionNode>, name: &str) -> (m: usize)
    requires
        exists|q: int| 0 <= q < nodes@.len() && nodes@[q].name@ == name@,
    ensures
        m < nodes@.len(),
        nodes@[m as int].name@ == name@,
{
    let mut m: usize = 0;
    while m < nodes.len()
        invariant
            m <= nodes@.len(),
            forall|q: int| 0 <= q < m ==> nodes@[q].name@ != name@,
            exists|q: int| 0 <= q < nodes@.len() && nodes@[q].name@ == name@,
        decreases nodes@.len() - m,
    {
        if text_eq(nodes[m].name.as_str(), name) {
            return m;
        }
        m = m + 1;
    }
    proof {
        let q = choose|q: int| 0 <= q < nodes@.len() && nodes@[q].name@ == name@;
        assert(nodes@[q].name@ != name@);
    }
    0
}

fn inside_blocks(addresses: &Vec<IpAddr>, blocks: &Vec<IpPrefix>) -> (r: bool)
    ensures
        r == !(exists|k: int| 0 <= k < addresses@.len() && !address_in_blocks(blocks@, #[trigger] addresses@[k])),
{
    let mut k: usize = 0;
    while k < addresses.len()
        invariant
            k <= addresses@.len(),
            forall|q: int| 0 <= q < k ==> address_in_blocks(blocks@, #[trigger] addresses@[q]),
        decreases addresses@.len() - k,
    {
        let mut b: usize = 0;
        let mut found = false;
        while b < blocks.len() && !found
            invariant
                k < addresses@.len(),
                b <= blocks@.len(),
                found ==> b > 0 && prefix_contains(blocks@[b - 1], addresses@[k as int]),
                !found ==> forall|q: int| 0 <= q < b ==> !prefix_contains(blocks@[q], addresses@[k as int]),
            decreases blocks@.len() - b,
        {
            if blocks[b].contains(addresses[k]) {
                found = true;
            }
            b = b + 1;
        }
        if !found {
            assert(!address_in_blocks(blocks@, addresses@[k as int]));
            return false;
        }
        assert(prefix_contains(blocks@[b - 1], addresses@[k as int]));
        k = k + 1;
    }
    true
}

fn hits_beacon(addresses: &Vec<IpAddr>, derived: &Vec<IpPrefix>) -> (r: bool)
    ensures
        r == exists|k: int, b: int|
            0 <= k < addresses@.len() && 0 <= b < derived@.len() && #[trigger] derived@[b].address == #[trigger] addresses@[k],
{
    let mut k: usize = 0;
    while k < addresses.len()
        invariant
            k <= addresses@.len(),
            forall|q: int, b: int| 0 <= q < k && 0 <= b < derived@.len() ==> #[trigger] derived@[b].address != #[trigger] addresses@[q],
        decreases addresses@.len() - k,
    {
        let mut b: usize = 0;
        while b < derived.len()
            invariant
                k < addresses@.len(),
                b <= derived@.len(),
                forall|q: int, c: int| 0 <= q < k && 0 <= c < derived@.len() ==> #[trigger] derived@[c].address != #[trigger] addresses@[q],
                forall|c: int| 0 <= c < b ==> #[trigger] derived@[c].address != addresses@[k as int],
            decreases derived@.len() - b,
        {
            if derived[b].address == addresses[k] {
                return true;
            }
            b = b + 1;
        }
        k = k + 1;
    }
    false
}

/// An address sits on a derived beacon exactly when it is the beacon of one
/// of the blocks.
proof fn lemma_beacon_hit(derived: Seq<IpPrefix>, blocks: Seq<IpPrefix>, beacons: Seq<ProofBeacon>, a: IpAddr)
    requires
        proof_addresses_derivable(blocks, beacons),
        derived.to_multiset() == beacon_prefixes(blocks, beacons).to_multiset(),
    ensures
        (exists|b: int| 0 <= b < derived.len() && derived[b].address == a) == (exists|b: int|
            0 <= b < blocks.len() && beacon_for(beacons, blocks[b])->0 == a),
{
    let bp = beacon_prefixes(blocks, beacons);
    if exists|b: int| 0 <= b < derived.len() && derived[b].address == a {
        let b = choose|b: int| 0 <= b < derived.len() && derived[b].address == a;
        assert(derived.contains(derived[b]));
        to_multiset_contains(derived, derived[b]);
        to_multiset_contains(bp, derived[b]);
        let c = choose|c: int| 0 <= c < bp.len() && bp[c] == derived[b];
        assert(bp[c].address == beacon_for(beacons, blocks[c])->0);
    }
    if exists|b: int| 0 <= b < blocks.len() && beacon_for(beacons, blocks[b])->0 == a {
        let b = choose|b: int| 0 <= b < blocks.len() && beacon_for(beacons, blocks[b])->0 == a;
        assert(bp[b].address == a);
        assert(bp.contains(bp[b]));
        to_multiset_contains(bp, bp[b]);
        to_multiset_contains(derived, bp[b]);
    }
}

fn insert_owner(owners: &mut Vec<EncryptionEndpointAddressFact>, x: EncryptionEndpointAddressFact) -> (inserted: bool)
    requires
        strictly_sorted_by_key(old(owners)@),
    ensures
        inserted == forall|o: int| 0 <= o < old(owners)@.len() ==> old(owners)@[o].address != x.address,
        inserted ==> strictly_sorted_by_key(final(owners)@) && exists|p: int|
            0 <= p <= old(owners)@.len() && final(owners)@ == old(owners)@.insert(p, x),
        !inserted ==> final(owners)@ == old(owners)@,
{
    let mut p: usize = 0;
    while p < owners.len() && crate::address::address_less(owners[p].address, x.address)
        invariant
            p <= owners@.len(),
            owners@ == old(owners)@,
            strictly_sorted_by_key(owners@),
            forall|q: int| 0 <= q < p ==> address_lt(#[trigger] owners@[q].address, x.address),
        decreases owners@.len() - p,
    {
        p = p + 1;
    }
    if p < owners.len() && owners[p].address == x.address {
        return false;
    }
    let ghost before = owners@;
    proof {
        assert forall|q: int| p <= q < before.len() implies address_lt(x.address, #[trigger] before[q].address) by {
            if q > p {
                assert(before[p as int].key_lt(before[q]));
            }
        }
    }
    owners.insert(p, x);
    proof {
        let after = owners@;
        assert(after =~= before.insert(p as int, x));
        assert forall|a: int, b: int| 0 <= a < b < after.len() implies (#[trigger] after[a]).key_lt(#[trigger] after[b]) by {
            if a < p && b < p {
                assert(before[a].key_lt(before[b]));
            } else if a < p && b == p {
            } else if a < p {
                assert(address_lt(before[a].address, x.address));
                assert(address_lt(x.address, before[b - 1].address));
            } else if a == p {
                assert(address_lt(x.address, before[b - 1].address));
            } else {
                assert(before[a - 1].key_lt(before[b - 1]));
            }
        }
    }
    true
}

/// Whether `r` is the result of projecting the placement of `workloads` on
/// the Node cut `nodes` of cluster `cluster_id`, with the Nodes' proof
/// beacons `beacons`.
pub open spec fn placement_result(
    r: Result<KubernetesEncryptionPlacement, KubernetesEncryptionProjectionError>,
    cluster_id: Seq<char>,
    nodes: Seq<KubernetesEncryptionNodeSnapshot>,
    workloads: Seq<KubernetesEncryptionWorkloadSnapshot>,
    beacons: Seq<ProofBeacon>,
) -> bool {
    match nodes_error(cluster_id, nodes) {
        Some(e) => r == Err::<KubernetesEncryptionPlacement, KubernetesEncryptionProjectionError>(e),
        None => if capacity_exceeded(workloads) {
            r == Err::<KubernetesEncryptionPlacement, KubernetesEncryptionProjectionError>(
                KubernetesEncryptionProjectionError::Capacity,
            )
        } else if !uids_distinct(workloads) {
            r == Err::<KubernetesEncryptionPlacement, KubernetesEncryptionProjectionError>(
                KubernetesEncryptionProjectionError::InvalidWorkload,
            )
        } else {
            exists|ws: Seq<KubernetesEncryptionWorkloadSnapshot>|
                #[trigger] uid_order_of(ws, workloads) && match placement_error(ws, nodes, beacons) {
                    Some(e) => r == Err::<KubernetesEncryptionPlacement, KubernetesEncryptionProjectionError>(e),
                    None => r matches Ok(p) && placement_of(p, cluster_id, nodes, ws),
                }
        },
    }
}

/// `ws` holds `workloads` sorted by UID.
pub open spec fn uid_order_of(
    ws: Seq<KubernetesEncryptionWorkloadSnapshot>,
    workloads: Seq<KubernetesEncryptionWorkloadSnapshot>,
) -> bool {
    ws.to_multiset() == workloads.to_multiset() && strictly_sorted_by_key(ws)
}

proof fn lemma_error_persists(
    ws: Seq<KubernetesEncryptionWorkloadSnapshot>,
    nodes: Seq<KubernetesEncryptionNodeSnapshot>,
    beacons: Seq<ProofBeacon>,
    m: int,
    n: int,
)
    requires
        0 <= m <= n <= ws.len(),
        placement_error(ws.take(m), nodes, beacons) is Some,
    ensures
        placement_error(ws.take(n), nodes, beacons) == placement_error(ws.take(m), nodes, beacons),
    decreases n - m,
{
    if n > m {
        lemma_error_persists(ws, nodes, beacons, m, n - 1);
        assert(ws.take(n).drop_last() =~= ws.take(n - 1));
    }
}

proof fn lemma_fails_at(
    ws: Seq<KubernetesEncryptionWorkloadSnapshot>,
    nodes: Seq<KubernetesEncryptionNodeSnapshot>,
    beacons: Seq<ProofBeacon>,
    i: int,
    e: KubernetesEncryptionProjectionError,
)
    requires
        0 <= i < ws.len(),
        placement_error(ws.take(i), nodes, beacons) is None,
        workload_error(ws[i], nonhost(ws.take(i)), nodes, beacons) == Some(e),
    ensures
        placement_error(ws, nodes, beacons) == Some(e),
{
    assert(ws.take(i + 1).drop_last() =~= ws.take(i));
    assert(placement_error(ws.take(i + 1), nodes, beacons) == Some(e));
    lemma_error_persists(ws, nodes, beacons, i + 1, ws.len() as int);
    assert(ws.take(ws.len() as int) =~= ws);
}

/// Admits the workloads `ws` in order on a validated Node cut.
fn admit_workloads(
    cluster_id: &str,
    node_snapshots: &Vec<KubernetesEncryptionNodeSnapshot>,
    ws: &Vec<KubernetesEncryptionWorkloadSnapshot>,
    beacons: &Vec<ProofBeacon>,
) -> (r: Result<KubernetesEncryptionPlacement, KubernetesEncryptionProjectionError>)
    requires
        forall|q: int| 0 <= q < node_snapshots@.len() ==> !#[trigger] node_rejected(node_snapshots@, q),
    ensures
        match placement_error(ws@, node_snapshots@, beacons@) {
            Some(e) => r == Err::<KubernetesEncryptionPlacement, KubernetesEncryptionProjectionError>(e),
            None => r matches Ok(p) && placement_of(p, cluster_id@, node_snapshots@, ws@),
        },
{
    let ghost snaps = node_snapshots@;
    proof {
        assert(ws@.take(0) =~= seq![]);
    }
    let nodes = project_nodes(cluster_id, node_snapshots);
    let mut endpoints: Vec<EncryptionEndpointFact> = Vec::new();
    let mut owners: Vec<EncryptionEndpointAddressFact> = Vec::new();
    let mut i: usize = 0;
    while i < ws.len()
        invariant
            i <= ws@.len(),
            node_snapshots@ == snaps,
            forall|q: int| 0 <= q < snaps.len() ==> !#[trigger] node_rejected(snaps, q),
            nodes_projected(cluster_id@, snaps, nodes@),
            placement_error(ws@.take(i as int), snaps, beacons@) is None,
            endpoints@.len() == nonhost(ws@.take(i as int)).len(),
            forall|e: int|
                0 <= e < endpoints@.len() ==> endpoint_of(#[trigger] endpoints@[e], nonhost(ws@.take(i as int))[e], nodes@),
            strictly_sorted_by_key(owners@),
            owners_of(owners@, nonhost(ws@.take(i as int)), snaps),
        decreases ws@.len() - i,
    {
        let ghost prev = ws@.take(i as int);
        let ghost hs = nonhost(prev);
        proof {
            assert(ws@.take(i + 1).drop_last() =~= prev);
            assert(ws@.take(i + 1).last() == ws@[i as int]);
        }
        let w = &ws[i];
        if !w.host_network {
            let j = match find_snapshot(node_snapshots, w.node_name.as_str()) {
                Some(j) => j,
                None => {
                    proof {
                        lemma_fails_at(ws@, snaps, beacons@, i as int, KubernetesEncryptionProjectionError::InvalidWorkload);
                    }
                    return Err(KubernetesEncryptionProjectionError::InvalidWorkload);
                },
            };
            proof {
                let c = choose|c: int| node_named(snaps, w.node_name@, c);
                lemma_names_distinct(snaps, c, j as int);
                assert((choose|c: int| node_named(snaps, w.node_name@, c)) == j);
            }
            let derived = match derive_wireguard_proof_addresses(&node_snapshots[j].pod_cidrs, beacons) {
                Ok(v) => v,
                Err(_) => {
                    proof {
                        lemma_fails_at(ws@, snaps, beacons@, i as int, KubernetesEncryptionProjectionError::InvalidNode);
                    }
                    return Err(KubernetesEncryptionProjectionError::InvalidNode);
                },
            };
            let ghost blocks = snaps[j as int].pod_cidrs@;
            if w.identity.0 == 0 || !validate_text(w.workload_uid.as_str()) || w.addresses.len() == 0 || !inside_blocks(
                &w.addresses,
                &node_snapshots[j].pod_cidrs,
            ) || hits_beacon(&w.addresses, &derived) {
                proof {
                    if exists|k: int, b: int|
                        0 <= k < w.addresses@.len() && 0 <= b < derived@.len() && #[trigger] derived@[b].address
                            == #[trigger] w.addresses@[k] {
                        let (k, b) = choose|k: int, b: int|
                            0 <= k < w.addresses@.len() && 0 <= b < derived@.len() && #[trigger] derived@[b].address
                                == #[trigger] w.addresses@[k];
                        lemma_beacon_hit(derived@, blocks, beacons@, w.addresses@[k]);
                        let b2 = choose|b2: int| 0 <= b2 < blocks.len() && beacon_for(beacons@, blocks[b2])->0 == w.addresses@[k];
                        assert(beacon_for(beacons@, blocks[b2])->0 == w.addresses@[k]);
                    }
                    assert(workload_rejected(*w, blocks, beacons@));
                    lemma_fails_at(ws@, snaps, beacons@, i as int, KubernetesEncryptionProjectionError::InvalidWorkload);
                }
                return Err(KubernetesEncryptionProjectionError::InvalidWorkload);
            }
            proof {
                assert forall|k: int, b: int|
                    #![trigger blocks[b], w.addresses@[k]]
                    0 <= k < w.addresses@.len() && 0 <= b < blocks.len() implies beacon_for(beacons@, blocks[b])->0
                        != w.addresses@[k] by {
                    lemma_beacon_hit(derived@, blocks, beacons@, w.addresses@[k]);
                    if beacon_for(beacons@, blocks[b])->0 == w.addresses@[k] {
                        let c = choose|c: int| 0 <= c < derived@.len() && derived@[c].address == w.addresses@[k];
                        assert(derived@[c].address == w.addresses@[k]);
                    }
                }
                assert(!workload_rejected(*w, blocks, beacons@));
            }
            let mut k: usize = 0;
            while k < w.addresses.len()
                invariant
                    i < ws@.len(),
                    *w == ws@[i as int],
                    prev == ws@.take(i as int),
                    hs == nonhost(prev),
                    placement_error(prev, snaps, beacons@) is None,
                    (choose|c: int| node_named(snaps, w.node_name@, c)) == j,
                    proof_addresses_derivable(snaps[j as int].pod_cidrs@, beacons@),
                    !workload_rejected(*w, snaps[j as int].pod_cidrs@, beacons@),
                    !w.host_network,
                    j < snaps.len(),
                    node_named(snaps, w.node_name@, j as int),
                    node_snapshots@ == snaps,
                    k <= w.addresses@.len(),
                    strictly_sorted_by_key(owners@),
                    forall|o: int|
                        0 <= o < owners@.len() ==> #[trigger] owned_by_some(owners@[o], hs, snaps) || exists|q: int|
                            0 <= q < k && #[trigger] owner_of(owners@[o], *w, q, snaps),
                    forall|x: int, q: int|
                        0 <= x < hs.len() && 0 <= q < hs[x].addresses@.len() ==> #[trigger] has_owner(owners@, hs[x], q, snaps),
                    forall|q: int| 0 <= q < k ==> #[trigger] has_owner(owners@, *w, q, snaps),
                    forall|q: int, x: int, q2: int|
                        0 <= q < k && 0 <= x < hs.len() && 0 <= q2 < hs[x].addresses@.len() ==> #[trigger] hs[x].addresses@[q2]
                            != #[trigger] w.addresses@[q],
                    forall|q1: int, q2: int| 0 <= q1 < q2 < k ==> #[trigger] w.addresses@[q1] != #[trigger] w.addresses@[q2],
                decreases w.addresses@.len() - k,
            {
                let fact = EncryptionEndpointAddressFact {
                    address: w.addresses[k],
                    workload_uid: w.workload_uid.clone(),
                    identity: w.identity,
                    node_uid: node_snapshots[j].uid.clone(),
                };
                let ghost before = owners@;
                proof {
                    assert(owner_of(fact, *w, k as int, snaps));
                }
                if !insert_owner(&mut owners, fact) {
                    proof {
                        let o = choose|o: int| 0 <= o < before.len() && before[o].address == fact.address;
                        if owned_by_some(before[o], hs, snaps) {
                            let (x, q2) = choose|x: int, q2: int|
                                0 <= x < hs.len() && 0 <= q2 < hs[x].addresses@.len() && #[trigger] owner_of(before[o], hs[x], q2, snaps);
                            assert(hs[x].addresses@[q2] == w.addresses@[k as int]);
                        } else {
                            let q = choose|q: int| 0 <= q < k && #[trigger] owner_of(before[o], *w, q, snaps);
                            assert(w.addresses@[q] == w.addresses@[k as int]);
                        }
                        assert(addresses_collide(*w, hs));
                        lemma_fails_at(ws@, snaps, beacons@, i as int, KubernetesEncryptionProjectionError::InvalidWorkload);
                    }
                    return Err(KubernetesEncryptionProjectionError::InvalidWorkload);
                }
                proof {
                    let p = choose|p: int| 0 <= p <= before.len() && owners@ == before.insert(p, fact);
                    let after = owners@;
                    assert forall|o: int| 0 <= o < after.len() implies #[trigger] owned_by_some(after[o], hs, snaps)
                        || exists|q: int| 0 <= q < k + 1 && #[trigger] owner_of(after[o], *w, q, snaps) by {
                        if o == p {
                            assert(owner_of(after[o], *w, k as int, snaps));
                        } else if o < p {
                            assert(after[o] == before[o]);
                            if !owned_by_some(before[o], hs, snaps) {
                                let q = choose|q: int| 0 <= q < k && #[trigger] owner_of(before[o], *w, q, snaps);
                                assert(owner_of(after[o], *w, q, snaps));
                            }
                        } else {
                            let prior = before[o - 1];
                            assert(after[o] == prior);
                            if !owned_by_some(prior, hs, snaps) {
                                let q = choose|q: int| 0 <= q < k && #[trigger] owner_of(prior, *w, q, snaps);
                                assert(owner_of(after[o], *w, q, snaps));
                            }
                        }
                    }
                    assert forall|x: int, q: int|
                        0 <= x < hs.len() && 0 <= q < hs[x].addresses@.len() implies #[trigger] has_owner(after, hs[x], q, snaps) by {
                        assert(has_owner(before, hs[x], q, snaps));
                        let o = choose|o: int| 0 <= o < before.len() && #[trigger] owner_of(before[o], hs[x], q, snaps);
                        if o < p {
                            assert(after[o] == before[o]);
                            assert(owner_of(after[o], hs[x], q, snaps));
                        } else {
                            assert(after[o + 1] == before[o]);
                            assert(owner_of(after[o + 1], hs[x], q, snaps));
                        }
                    }
                    assert forall|q: int| 0 <= q < k + 1 implies #[trigger] has_owner(after, *w, q, snaps) by {
                        if q == k {
                            assert(after[p] == fact);
                            assert(owner_of(after[p], *w, q, snaps));
                        } else {
                            assert(has_owner(before, *w, q, snaps));
                            let o = choose|o: int| 0 <= o < before.len() && #[trigger] owner_of(before[o], *w, q, snaps);
                            if o < p {
                                assert(after[o] == before[o]);
                                assert(owner_of(after[o], *w, q, snaps));
                            } else {
                                assert(after[o + 1] == before[o]);
                                assert(owner_of(after[o + 1], *w, q, snaps));
                            }
                        }
                    }
                    assert forall|x: int, q2: int|
                        0 <= x < hs.len() && 0 <= q2 < hs[x].addresses@.len() implies #[trigger] hs[x].addresses@[q2]
                            != w.addresses@[k as int] by {
                        assert(has_owner(before, hs[x], q2, snaps));
                        let o = choose|o: int| 0 <= o < before.len() && #[trigger] owner_of(before[o], hs[x], q2, snaps);
                        assert(before[o].address != fact.address);
                    }
                    assert forall|q1: int| 0 <= q1 < k implies #[trigger] w.addresses@[q1] != w.addresses@[k as int] by {
                        assert(has_owner(before, *w, q1, snaps));
                        let o = choose|o: int| 0 <= o < before.len() && #[trigger] owner_of(before[o], *w, q1, snaps);
                        assert(before[o].address != fact.address);
                    }
                }
                k = k + 1;
            }
            proof {
                assert(!addresses_collide(*w, hs));
                assert(workload_error(*w, hs, snaps, beacons@) is None);
                assert(nonhost(ws@.take(i + 1)) == hs.push(*w));
                assert(projected_to_some(cluster_id@, snaps[j as int], nodes@));
                let c = choose|c: int| 0 <= c < nodes@.len() && #[trigger] node_projected(cluster_id@, snaps[j as int], nodes@[c]);
                assert(nodes@[c].name@ == w.node_name@);
            }
            let m = find_projected(&nodes, w.node_name.as_str());
            let node = nodes[m].duplicate();
            endpoints.push(EncryptionEndpointFact { identity: w.identity, workload_uid: w.workload_uid.clone(), node });
            proof {
                let hs2 = hs.push(*w);
                let last = endpoints@[endpoints@.len() - 1];
                assert(hs2[hs.len() as int] == *w);
                assert(node_same(last.node, nodes@[m as int]));
                assert(nodes@[m as int].name@ == w.node_name@);
                assert(endpoint_of(last, hs2[hs.len() as int], nodes@));
                assert forall|e: int| 0 <= e < endpoints@.len() implies endpoint_of(#[trigger] endpoints@[e], hs2[e], nodes@) by {
                    if e < hs.len() {
                        assert(hs2[e] == hs[e]);
                    }
                }
                assert forall|o: int| 0 <= o < owners@.len() implies #[trigger] owned_by_some(owners@[o], hs2, snaps) by {
                    if owned_by_some(owners@[o], hs, snaps) {
                        let (x, q) = choose|x: int, q: int|
                            0 <= x < hs.len() && 0 <= q < hs[x].addresses@.len() && #[trigger] owner_of(owners@[o], hs[x], q, snaps);
                        assert(hs2[x] == hs[x]);
                        assert(owner_of(owners@[o], hs2[x], q, snaps));
                    } else {
                        let q = choose|q: int| 0 <= q < w.addresses@.len() && #[trigger] owner_of(owners@[o], *w, q, snaps);
                        assert(hs2[hs.len() as int] == *w);
                        assert(owner_of(owners@[o], hs2[hs.len() as int], q, snaps));
                    }
                }
                assert forall|x: int, q: int|
                    0 <= x < hs2.len() && 0 <= q < hs2[x].addresses@.len() implies #[trigger] has_owner(owners@, hs2[x], q, snaps) by {
                    if x < hs.len() {
                        assert(hs2[x] == hs[x]);
                    } else {
                        assert(hs2[x] == *w);
                    }
                }
            }
        } else {
            proof {
                assert(nonhost(ws@.take(i + 1)) == hs);
            }
        }
        i = i + 1;
    }
    proof {
        assert(ws@.take(ws@.len() as int) =~= ws@);
    }
    let placement = KubernetesEncryptionPlacement {
        cluster_id: cluster_id.to_owned(),
        nodes,
        endpoints,
        addresses: owners,
    };
    proof {
        assert(placement_of(placement, cluster_id@, snaps, ws@));
    }
    Ok(placement)
}

/// Projects the complete managed address cut of one cluster without
/// enumerating policy pairs.
pub fn project_placement_facts(
    cluster_id: &str,
    node_snapshots: Vec<KubernetesEncryptionNodeSnapshot>,
    workloads: Vec<KubernetesEncryptionWorkloadSnapshot>,
    beacons: &Vec<ProofBeacon>,
) -> (r: Result<KubernetesEncryptionPlacement, KubernetesEncryptionProjectionError>)
    ensures
        placement_result(r, cluster_id@, node_snapshots@, workloads@, beacons@),
{
    match validate_nodes(cluster_id, &node_snapshots) {
        Err(e) => {
            return Err(e);
        },
        Ok(()) => {},
    }
    if !capacity_ok(&workloads) {
        return Err(KubernetesEncryptionProjectionError::Capacity);
    }
    let ghost input = workloads@;
    proof {
        lemma_uids_distinct(input);
    }
    let ws = match sort_unique_by_key(workloads) {
        Some(v) => v,
        None => {
            return Err(KubernetesEncryptionProjectionError::InvalidWorkload);
        },
    };
    let ghost snaps = node_snapshots@;
    proof {
        assert(uid_order_of(ws@, input));
        assert forall|q: int| 0 <= q < snaps.len() implies !#[trigger] node_rejected(snaps, q) by {
            if node_rejected(snaps, q) {
                assert(nodes_error(cluster_id@, snaps) is Some);
            }
        }
    }
    admit_workloads(cluster_id, &node_snapshots, &ws, beacons)
}

/// Projects the complete managed address cut of one cluster without
/// enumerating policy pairs.
pub fn project_kubernetes_encryption_placement(
    cluster_id: &str,
    nodes: Vec<KubernetesEncryptionNodeSnapshot>,
    workloads: Vec<KubernetesEncryptionWorkloadSnapshot>,
    beacons: &Vec<ProofBeacon>,
) -> (r: Result<KubernetesEncryptionPlacement, KubernetesEncryptionProjectionError>)
    ensures
        placement_result(r, cluster_id@, nodes@, workloads@, beacons@),
{
    project_placement_facts(cluster_id, nodes, workloads, beacons)
}

/// Every workload admitted without refusal lies on a named Node, and passes
/// that Node's admission checks.
proof fn lemma_admitted_workloads(
    ws: Seq<KubernetesEncryptionWorkloadSnapshot>,
    nodes: Seq<KubernetesEncryptionNodeSnapshot>,
    beacons: Seq<ProofBeacon>,
    x: int,
)
    requires
        placement_error(ws, nodes, beacons) is None,
        0 <= x < nonhost(ws).len(),
    ensures
        exists|j: int|
            #[trigger] node_named(nodes, nonhost(ws)[x].node_name@, j) && !workload_rejected(
                nonhost(ws)[x],
                nodes[j].pod_cidrs@,
                beacons,
            ),
    decreases ws.len(),
{
    let prefix = ws.drop_last();
    if ws.last().host_network {
        lemma_admitted_workloads(prefix, nodes, beacons, x);
    } else if x < nonhost(prefix).len() {
        assert(nonhost(ws)[x] == nonhost(prefix)[x]);
        lemma_admitted_workloads(prefix, nodes, beacons, x);
    } else {
        assert(nonhost(ws)[x] == ws.last());
        let j = choose|j: int| node_named(nodes, ws.last().node_name@, j);
        assert(node_named(nodes, nonhost(ws)[x].node_name@, j));
    }
}

/// In a projected placement every address has exactly one owner, and the
/// owner's Node holds the address inside one of its blocks and not on one
/// of its proof beacons.
pub proof fn lemma_placement_owners_exact(
    p: KubernetesEncryptionPlacement,
    cluster_id: Seq<char>,
    nodes: Seq<KubernetesEncryptionNodeSnapshot>,
    workloads: Seq<KubernetesEncryptionWorkloadSnapshot>,
    beacons: Seq<ProofBeacon>,
)
    requires
        placement_result(Ok(p), cluster_id, nodes, workloads, beacons),
    ensures
        forall|i: int, j: int|
            0 <= i < j < p.addresses_view().len() ==> (#[trigger] p.addresses_view()[i]).address != (
            #[trigger] p.addresses_view()[j]).address,
        forall|i: int|
            #![trigger p.addresses_view()[i]]
            0 <= i < p.addresses_view().len() ==> exists|n: int|
                0 <= n < nodes.len() && nodes[n].uid@ == p.addresses_view()[i].node_uid@ && address_in_blocks(
                    nodes[n].pod_cidrs@,
                    p.addresses_view()[i].address,
                ) && !(exists|b: int|
                    0 <= b < nodes[n].pod_cidrs@.len() && #[trigger] beacon_for(beacons, nodes[n].pod_cidrs@[b])->0
                        == p.addresses_view()[i].address),
{
    let ws = choose|ws: Seq<KubernetesEncryptionWorkloadSnapshot>|
        #[trigger] uid_order_of(ws, workloads) && match placement_error(ws, nodes, beacons) {
            Some(e) => Ok::<KubernetesEncryptionPlacement, KubernetesEncryptionProjectionError>(p) == Err::<
                KubernetesEncryptionPlacement,
                KubernetesEncryptionProjectionError,
            >(e),
            None => Ok::<KubernetesEncryptionPlacement, KubernetesEncryptionProjectionError>(p) matches Ok(q)
                && placement_of(q, cluster_id, nodes, ws),
        };
    let hs = nonhost(ws);
    let a = p.addresses_view();
    assert(placement_error(ws, nodes, beacons) is None);
    assert(placement_of(p, cluster_id, nodes, ws));
    assert forall|q: int| 0 <= q < nodes.len() implies !#[trigger] node_rejected(nodes, q) by {
        if node_rejected(nodes, q) {
            assert(nodes_error(cluster_id, nodes) is Some);
        }
    }
    assert forall|i: int|
        #![trigger a[i]]
        0 <= i < a.len() implies exists|n: int|
            0 <= n < nodes.len() && nodes[n].uid@ == a[i].node_uid@ && address_in_blocks(nodes[n].pod_cidrs@, a[i].address)
                && !(exists|b: int|
                0 <= b < nodes[n].pod_cidrs@.len() && #[trigger] beacon_for(beacons, nodes[n].pod_cidrs@[b])->0
                    == a[i].address) by {
        assert(owned_by_some(a[i], hs, nodes));
        let (x, k) = choose|x: int, k: int|
            0 <= x < hs.len() && 0 <= k < hs[x].addresses@.len() && #[trigger] owner_of(a[i], hs[x], k, nodes);
        lemma_admitted_workloads(ws, nodes, beacons, x);
        let n = choose|n: int|
            #[trigger] node_named(nodes, hs[x].node_name@, n) && !workload_rejected(hs[x], nodes[n].pod_cidrs@, beacons);
        let m = choose|m: int| #[trigger] node_named(nodes, hs[x].node_name@, m) && a[i].node_uid@ == nodes[m].uid@;
        lemma_names_distinct(nodes, n, m);
        assert(hs[x].addresses@[k] == a[i].address);
        assert(address_in_blocks(nodes[n].pod_cidrs@, hs[x].addresses@[k]));
        assert forall|b: int| 0 <= b < nodes[n].pod_cidrs@.len() implies #[trigger] beacon_for(
            beacons,
            nodes[n].pod_cidrs@[b],
        )->0 != a[i].address by {
            if beacon_for(beacons, nodes[n].pod_cidrs@[b])->0 == a[i].address {
                assert(beacon_for(beacons, nodes[n].pod_cidrs@[b])->0 == hs[x].addresses@[k]);
            }
        }
    }
    assert forall|i: int, j: int| 0 <= i < j < a.len() implies (#[trigger] a[i]).address != (#[trigger] a[j]).address by {
        assert(a[i].key_lt(a[j]));
    }
}

/// Two placements hold the same values.
pub open spec fn placement_same(p: KubernetesEncryptionPlacement, q: KubernetesEncryptionPlacement) -> bool {
    &&& p.cluster_id_view() == q.cluster_id_view()
    &&& p.nodes_view().len() == q.nodes_view().len()
    &&& forall|i: int| 0 <= i < p.nodes_view().len() ==> node_same(#[trigger] p.nodes_view()[i], q.nodes_view()[i])
    &&& p.endpoints_view().len() == q.endpoints_view().len()
    &&& forall|i: int|
        #![trigger p.endpoints_view()[i]]
        0 <= i < p.endpoints_view().len() ==> {
            let (a, b) = (p.endpoints_view()[i], q.endpoints_view()[i]);
            a.identity == b.identity && a.workload_uid@ == b.workload_uid@ && node_same(a.node, b.node)
        }
    &&& p.addresses_view().len() == q.addresses_view().len()
    &&& forall|i: int|
        #![trigger p.addresses_view()[i]]
        0 <= i < p.addresses_view().len() ==> {
            let (a, b) = (p.addresses_view()[i], q.addresses_view()[i]);
            a.address == b.address && a.workload_uid@ == b.workload_uid@ && a.identity == b.identity && a.node_uid@
                == b.node_uid@
        }
}

/// Workloads admitted without refusal never share an address.
proof fn lemma_admitted_addresses_distinct(
    ws: Seq<KubernetesEncryptionWorkloadSnapshot>,
    nodes: Seq<KubernetesEncryptionNodeSnapshot>,
    beacons: Seq<ProofBeacon>,
    x: int,
    y: int,
    k: int,
    q: int,
)
    requires
        placement_error(ws, nodes, beacons) is None,
        0 <= x < y < nonhost(ws).len(),
        0 <= k < nonhost(ws)[x].addresses@.len(),
        0 <= q < nonhost(ws)[y].addresses@.len(),
    ensures
        nonhost(ws)[x].addresses@[k] != nonhost(ws)[y].addresses@[q],
    decreases ws.len(),
{
    let prefix = ws.drop_last();
    if ws.last().host_network {
        lemma_admitted_addresses_distinct(prefix, nodes, beacons, x, y, k, q);
    } else if y < nonhost(prefix).len() {
        assert(nonhost(ws)[x] == nonhost(prefix)[x]);
        assert(nonhost(ws)[y] == nonhost(prefix)[y]);
        lemma_admitted_addresses_distinct(prefix, nodes, beacons, x, y, k, q);
    } else {
        let hs = nonhost(prefix);
        assert(nonhost(ws)[y] == ws.last());
        assert(nonhost(ws)[x] == hs[x]);
        assert(!addresses_collide(ws.last(), hs));
        if hs[x].addresses@[k] == ws.last().addresses@[q] {
            assert(hs[x].addresses@[k] == ws.last().addresses@[q]);
        }
    }
}

proof fn lemma_projected_same(
    cluster_id: Seq<char>,
    s: KubernetesEncryptionNodeSnapshot,
    a: EncryptionNode,
    b: EncryptionNode,
)
    requires
        node_projected(cluster_id, s, a),
        node_projected(cluster_id, s, b),
    ensures
        node_same(a, b),
{
    assert forall|i: int, j: int|
        0 <= i < a.pod_cidrs@.len() && 0 <= j < a.pod_cidrs@.len() && key_eq(
            #[trigger] a.pod_cidrs@[i],
            #[trigger] a.pod_cidrs@[j],
        ) implies a.pod_cidrs@[i] == a.pod_cidrs@[j] by {
        crate::address::lemma_prefix_total(a.pod_cidrs@[i], a.pod_cidrs@[j]);
    }
    lemma_sorted_same(a.pod_cidrs@, b.pod_cidrs@);
    assert forall|i: int, j: int|
        0 <= i < a.underlay_addresses@.len() && 0 <= j < a.underlay_addresses@.len() && key_eq(
            #[trigger] a.underlay_addresses@[i],
            #[trigger] a.underlay_addresses@[j],
        ) implies a.underlay_addresses@[i] == a.underlay_addresses@[j] by {
    }
    lemma_sorted_same(a.underlay_addresses@, b.underlay_addresses@);
}

/// The projection's result is determined by its inputs: two results that
/// both meet its contract are the same refusal, or the same placement.
pub proof fn lemma_placement_result_unique(
    r1: Result<KubernetesEncryptionPlacement, KubernetesEncryptionProjectionError>,
    r2: Result<KubernetesEncryptionPlacement, KubernetesEncryptionProjectionError>,
    cluster_id: Seq<char>,
    nodes: Seq<KubernetesEncryptionNodeSnapshot>,
    workloads: Seq<KubernetesEncryptionWorkloadSnapshot>,
    beacons: Seq<ProofBeacon>,
)
    requires
        placement_result(r1, cluster_id, nodes, workloads, beacons),
        placement_result(r2, cluster_id, nodes, workloads, beacons),
    ensures
        r1 is Err ==> r1 == r2,
        r1 matches Ok(p) ==> r2 matches Ok(q) && placement_same(p, q),
{
    if nodes_error(cluster_id, nodes) is None && !capacity_exceeded(workloads) && uids_distinct(workloads) {
        let ws1 = choose|ws: Seq<KubernetesEncryptionWorkloadSnapshot>|
            #[trigger] uid_order_of(ws, workloads) && match placement_error(ws, nodes, beacons) {
                Some(e) => r1 == Err::<KubernetesEncryptionPlacement, KubernetesEncryptionProjectionError>(e),
                None => r1 matches Ok(p) && placement_of(p, cluster_id, nodes, ws),
            };
        let ws2 = choose|ws: Seq<KubernetesEncryptionWorkloadSnapshot>|
            #[trigger] uid_order_of(ws, workloads) && match placement_error(ws, nodes, beacons) {
                Some(e) => r2 == Err::<KubernetesEncryptionPlacement, KubernetesEncryptionProjectionError>(e),
                None => r2 matches Ok(p) && placement_of(p, cluster_id, nodes, ws),
            };
        lemma_sorted_unique(ws1, ws2);
        let ws = ws1;
        if placement_error(ws, nodes, beacons) is None {
            let p = r1->Ok_0;
            let q = r2->Ok_0;
            let hs = nonhost(ws);
            assert forall|t: int| 0 <= t < nodes.len() implies !#[trigger] node_rejected(nodes, t) by {
                if node_rejected(nodes, t) {
                    assert(nodes_error(cluster_id, nodes) is Some);
                }
            }
            let (n1, n2) = (p.nodes_view(), q.nodes_view());
            assert forall|i: int| 0 <= i < n1.len() implies key_found_in(#[trigger] n1[i], n2) by {
                assert(projected_from_some(cluster_id, nodes, n1[i]));
                let j = choose|j: int| 0 <= j < nodes.len() && #[trigger] node_projected(cluster_id, nodes[j], n1[i]);
                assert(projected_to_some(cluster_id, nodes[j], n2));
                let m = choose|m: int| 0 <= m < n2.len() && #[trigger] node_projected(cluster_id, nodes[j], n2[m]);
                lemma_text_key(n1[i].name@, n2[m].name@, n2[m].name@);
                assert(key_eq(n1[i], n2[m]));
            }
            assert forall|i: int| 0 <= i < n2.len() implies key_found_in(#[trigger] n2[i], n1) by {
                assert(projected_from_some(cluster_id, nodes, n2[i]));
                let j = choose|j: int| 0 <= j < nodes.len() && #[trigger] node_projected(cluster_id, nodes[j], n2[i]);
                assert(projected_to_some(cluster_id, nodes[j], n1));
                let m = choose|m: int| 0 <= m < n1.len() && #[trigger] node_projected(cluster_id, nodes[j], n1[m]);
                lemma_text_key(n2[i].name@, n1[m].name@, n1[m].name@);
                assert(key_eq(n2[i], n1[m]));
            }
            lemma_sorted_keys_align(n1, n2);
            assert forall|i: int| 0 <= i < n1.len() implies node_same(#[trigger] n1[i], n2[i]) by {
                lemma_text_key(n1[i].name@, n2[i].name@, n2[i].name@);
                assert(projected_from_some(cluster_id, nodes, n1[i]));
                assert(projected_from_some(cluster_id, nodes, n2[i]));
                let j1 = choose|j: int| 0 <= j < nodes.len() && #[trigger] node_projected(cluster_id, nodes[j], n1[i]);
                let j2 = choose|j: int| 0 <= j < nodes.len() && #[trigger] node_projected(cluster_id, nodes[j], n2[i]);
                lemma_names_distinct(nodes, j1, j2);
                lemma_projected_same(cluster_id, nodes[j1], n1[i], n2[i]);
            }
            assert forall|i: int| #![trigger p.endpoints_view()[i]] 0 <= i < p.endpoints_view().len() implies {
                let (a, b) = (p.endpoints_view()[i], q.endpoints_view()[i]);
                a.identity == b.identity && a.workload_uid@ == b.workload_uid@ && node_same(a.node, b.node)
            } by {
                let a = p.endpoints_view()[i];
                let b = q.endpoints_view()[i];
                assert(endpoint_of(a, hs[i], n1));
                assert(endpoint_of(b, hs[i], n2));
                let m1 = choose|m: int| 0 <= m < n1.len() && n1[m].name@ == hs[i].node_name@ && #[trigger] node_same(a.node, n1[m]);
                let m2 = choose|m: int| 0 <= m < n2.len() && n2[m].name@ == hs[i].node_name@ && #[trigger] node_same(b.node, n2[m]);
                assert(node_same(n1[m1], n2[m1]));
                if m1 != m2 {
                    if m1 < m2 {
                        assert(n2[m1].key_lt(n2[m2]));
                    } else {
                        assert(n2[m2].key_lt(n2[m1]));
                    }
                    lemma_text_key(n2[m1].name@, n2[m2].name@, n2[m2].name@);
                }
            }
            let (a1, a2) = (p.addresses_view(), q.addresses_view());
            assert forall|i: int| 0 <= i < a1.len() implies key_found_in(#[trigger] a1[i], a2) by {
                assert(owned_by_some(a1[i], hs, nodes));
                let (x, k) = choose|x: int, k: int| 0 <= x < hs.len() && 0 <= k < hs[x].addresses@.len() && #[trigger] owner_of(a1[i], hs[x], k, nodes);
                assert(has_owner(a2, hs[x], k, nodes));
                let o = choose|o: int| 0 <= o < a2.len() && #[trigger] owner_of(a2[o], hs[x], k, nodes);
                assert(key_eq(a1[i], a2[o]));
            }
            assert forall|i: int| 0 <= i < a2.len() implies key_found_in(#[trigger] a2[i], a1) by {
                assert(owned_by_some(a2[i], hs, nodes));
                let (x, k) = choose|x: int, k: int| 0 <= x < hs.len() && 0 <= k < hs[x].addresses@.len() && #[trigger] owner_of(a2[i], hs[x], k, nodes);
                assert(has_owner(a1, hs[x], k, nodes));
                let o = choose|o: int| 0 <= o < a1.len() && #[trigger] owner_of(a1[o], hs[x], k, nodes);
                assert(key_eq(a2[i], a1[o]));
            }
            lemma_sorted_keys_align(a1, a2);
            assert forall|i: int| #![trigger a1[i]] 0 <= i < a1.len() implies {
                let (a, b) = (a1[i], a2[i]);
                a.address == b.address && a.workload_uid@ == b.workload_uid@ && a.identity == b.identity && a.node_uid@
                    == b.node_uid@
            } by {
                assert(key_eq(a1[i], a2[i]));
                assert(owned_by_some(a1[i], hs, nodes));
                assert(owned_by_some(a2[i], hs, nodes));
                let (x, k) = choose|x: int, k: int| 0 <= x < hs.len() && 0 <= k < hs[x].addresses@.len() && #[trigger] owner_of(a1[i], hs[x], k, nodes);
                let (y, l) = choose|y: int, l: int| 0 <= y < hs.len() && 0 <= l < hs[y].addresses@.len() && #[trigger] owner_of(a2[i], hs[y], l, nodes);
                if x < y {
                    lemma_admitted_addresses_distinct(ws, nodes, beacons, x, y, k, l);
                } else if y < x {
                    lemma_admitted_addresses_distinct(ws, nodes, beacons, y, x, l, k);
                }
                let j1 = choose|j: int| #[trigger] node_named(nodes, hs[x].node_name@, j) && a1[i].node_uid@ == nodes[j].uid@;
                let j2 = choose|j: int| #[trigger] node_named(nodes, hs[y].node_name@, j) && a2[i].node_uid@ == nodes[j].uid@;
                lemma_names_distinct(nodes, j1, j2);
            }
        }
    }
}

} // verus!
