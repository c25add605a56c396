//! The attested encryption path contract: one canonical, exact-source-Node
//! plan per Required and allowed identity pair, bound to policy, public keys,
//! epoch, bidirectional routes, and a fail-closed failure envelope.

use vstd::prelude::*;
use crate::address::{
    address_loopback, address_lt, address_multicast, address_unspecified, prefix_canonical,
    prefix_lt, prefixes_overlap, IpAddr, IpPrefix, SocketAddr,
};
use crate::ids::{IdentityId, PolicyId, Revision};
use crate::keys::{EncryptionPublicKeyDigest, WireGuardPublicKey};
use crate::model::{
    model_text, validate_text, ATTESTED_ENCRYPTION_PATH_CONTRACT_SCHEMA_VERSION, MAX_ENCRYPTION_PREFIXES_PER_NODE,
    MAX_ENCRYPTION_UNDERLAY_ADDRESSES_PER_NODE,
};
use crate::sorting::{key_eq, keys_distinct, sort_unique_by_key, strictly_sorted_by_key, Keyed};
use crate::text::{
    compare_text, lemma_text_lt_transitive, lemma_text_order_antisymmetric,
    lemma_text_order_eq, lemma_text_order_range, text_eq, text_lt,
};

verus! {

#[derive(Clone, Copy, Debug, PartialEq, Eq, Structural)]
pub enum EncryptionCapability {
    KernelWireGuard,
    DualStackUnderlay,
    PolicyRouting,
    TwoEpochRotation,
    EncryptedPathChallenge,
}

/// A Node as the contract sees it. Capabilities form a set, kept in
/// declaration order without repetition once canonical.
#[derive(Clone, Debug)]
pub struct EncryptionNode {
    pub cluster_id: String,
    pub name: String,
    pub uid: String,
    pub pod_cidrs: Vec<IpPrefix>,
    pub underlay_addresses: Vec<IpAddr>,
    pub capabilities: Vec<EncryptionCapability>,
}

#[derive(Clone, Debug)]
pub struct EncryptionEndpointFact {
    pub identity: IdentityId,
    pub workload_uid: String,
    pub node: EncryptionNode,
}

#[derive(Clone, Debug)]
pub struct EncryptionPolicyFact {
    pub source: IdentityId,
    pub destination: IdentityId,
    pub allowed: bool,
    pub policy_ids: Vec<PolicyId>,
}

#[derive(Clone, Copy, Debug, PartialEq, Eq, Structural)]
pub enum EncryptionKeyPhase {
    Prepared,
    Active,
}

#[derive(Clone, Debug)]
pub struct EncryptionKeyFact {
    pub node_uid: String,
    pub epoch: u64,
    pub public_key: WireGuardPublicKey,
    pub phase: EncryptionKeyPhase,
    pub valid_from_unix_ms: u64,
    pub valid_until_unix_ms: u64,
}

#[derive(Clone, Copy, Debug, PartialEq, Eq, Structural)]
pub enum EncryptionPathClass {
    ManagedPod,
}

#[derive(Clone, Debug)]
pub struct EncryptionPathFact {
    pub source_node_uid: String,
    pub destination_node_uid: String,
    pub epoch: u64,
    pub path_class: EncryptionPathClass,
    pub peer_endpoint: SocketAddr,
    pub allowed_ips: Vec<IpPrefix>,
    pub interface_name: String,
    pub route_table: u32,
    pub fwmark: u32,
    pub mtu: u32,
}

#[derive(Clone, Copy, Debug, PartialEq, Eq, Structural)]
pub struct EncryptionContractRevisions {
    pub intent: Revision,
    pub identity: Revision,
    pub policy: Revision,
    pub routing: Revision,
    pub key: Revision,
}

#[derive(Clone, Debug)]
pub struct EncryptionContractFacts {
    pub revisions: EncryptionContractRevisions,
    pub active_epoch: u64,
    pub endpoints: Vec<EncryptionEndpointFact>,
    pub policies: Vec<EncryptionPolicyFact>,
    pub keys: Vec<EncryptionKeyFact>,
    pub paths: Vec<EncryptionPathFact>,
}

#[derive(Debug)]
pub enum EncryptionContractError {
    InvalidModel(crate::model::EncryptionModelError),
    UnsupportedSchema { actual: u16, expected: u16 },
    InvalidRevisionOrLifetime,
    InvalidNode(&'static str),
    Capacity { kind: &'static str, actual: usize, limit: usize },
    InvalidEndpoint,
    MissingPolicy,
    InvalidPolicy,
    MissingKey,
    InvalidKey,
    MissingPath,
    InvalidPath(&'static str),
    MissingCapability(EncryptionCapability),
    AmbiguousAllowedIp,
    ReplayMismatch,
    CanonicalEncoding(String),
    UnknownWitnessSelection,
}

/// The laws of the text order that key orders are built from.
pub proof fn lemma_text_key(a: Seq<char>, b: Seq<char>, c: Seq<char>)
    ensures
        !text_lt(a, a),
        text_lt(a, b) ==> !text_lt(b, a),
        text_lt(a, b) && text_lt(b, c) ==> text_lt(a, c),
        !text_lt(a, b) && !text_lt(b, a) ==> a == b,
        !text_lt(b, a) && !text_lt(c, b) ==> !text_lt(c, a),
{
    lemma_text_order_eq(a, a);
    lemma_text_order_eq(a, b);
    lemma_text_order_eq(b, c);
    lemma_text_order_eq(a, c);
    lemma_text_order_antisymmetric(a, b);
    lemma_text_order_antisymmetric(b, c);
    lemma_text_order_antisymmetric(a, c);
    lemma_text_order_range(a, b);
    lemma_text_order_range(b, c);
    lemma_text_order_range(a, c);
    if text_lt(a, b) && text_lt(b, c) {
        lemma_text_lt_transitive(a, b, c);
    }
    if text_lt(c, b) && text_lt(b, a) {
        lemma_text_lt_transitive(c, b, a);
    }
}

fn text_less(a: &str, b: &str) -> (r: bool)
    ensures
        r == text_lt(a@, b@),
{
    compare_text(a, b) < 0
}

impl Keyed for IpPrefix {
    open spec fn key_lt(self, other: Self) -> bool {
        prefix_lt(self, other)
    }

    proof fn lemma_key_order(a: Self, b: Self, c: Self) {
    }

    fn key_less(&self, other: &Self) -> (r: bool) {
        crate::address::prefix_less(*self, *other)
    }
}

impl Keyed for IpAddr {
    open spec fn key_lt(self, other: Self) -> bool {
        address_lt(self, other)
    }

    proof fn lemma_key_order(a: Self, b: Self, c: Self) {
    }

    fn key_less(&self, other: &Self) -> (r: bool) {
        crate::address::address_less(*self, *other)
    }
}

impl Keyed for PolicyId {
    open spec fn key_lt(self, other: Self) -> bool {
        self.0 < other.0
    }

    proof fn lemma_key_order(a: Self, b: Self, c: Self) {
    }

    fn key_less(&self, other: &Self) -> (r: bool) {
        self.0 < other.0
    }
}

/// Endpoints are ordered by identity, workload UID, then Node UID.
impl Keyed for EncryptionEndpointFact {
    open spec fn key_lt(self, other: Self) -> bool {
        ||| self.identity.0 < other.identity.0
        ||| self.identity.0 == other.identity.0 && text_lt(self.workload_uid@, other.workload_uid@)
        ||| self.identity.0 == other.identity.0 && self.workload_uid@ == other.workload_uid@ && text_lt(
            self.node.uid@,
            other.node.uid@,
        )
    }

    proof fn lemma_key_order(a: Self, b: Self, c: Self) {
        lemma_text_key(a.workload_uid@, b.workload_uid@, c.workload_uid@);
        lemma_text_key(b.workload_uid@, a.workload_uid@, c.workload_uid@);
        lemma_text_key(a.workload_uid@, c.workload_uid@, b.workload_uid@);
        lemma_text_key(a.node.uid@, b.node.uid@, c.node.uid@);
        lemma_text_key(b.node.uid@, a.node.uid@, c.node.uid@);
        lemma_text_key(a.node.uid@, c.node.uid@, b.node.uid@);
    }

    fn key_less(&self, other: &Self) -> (r: bool) {
        self.identity.0 < other.identity.0 || (self.identity.0 == other.identity.0 && (text_less(
            self.workload_uid.as_str(),
            other.workload_uid.as_str(),
        ) || (text_eq(self.workload_uid.as_str(), other.workload_uid.as_str()) && text_less(
            self.node.uid.as_str(),
            other.node.uid.as_str(),
        ))))
    }
}

/// Policy facts are ordered by source, then destination identity.
impl Keyed for EncryptionPolicyFact {
    open spec fn key_lt(self, other: Self) -> bool {
        self.source.0 < other.source.0 || (self.source.0 == other.source.0 && self.destination.0
            < other.destination.0)
    }

    proof fn lemma_key_order(a: Self, b: Self, c: Self) {
    }

    fn key_less(&self, other: &Self) -> (r: bool) {
        self.source.0 < other.source.0 || (self.source.0 == other.source.0 && self.destination.0
            < other.destination.0)
    }
}

/// Key facts are ordered by Node UID, then epoch.
impl Keyed for EncryptionKeyFact {
    open spec fn key_lt(self, other: Self) -> bool {
        text_lt(self.node_uid@, other.node_uid@) || (self.node_uid@ == other.node_uid@ && self.epoch
            < other.epoch)
    }

    proof fn lemma_key_order(a: Self, b: Self, c: Self) {
        lemma_text_key(a.node_uid@, b.node_uid@, c.node_uid@);
        lemma_text_key(b.node_uid@, a.node_uid@, c.node_uid@);
        lemma_text_key(a.node_uid@, c.node_uid@, b.node_uid@);
    }

    fn key_less(&self, other: &Self) -> (r: bool) {
        text_less(self.node_uid.as_str(), other.node_uid.as_str()) || (text_eq(
            self.node_uid.as_str(),
            other.node_uid.as_str(),
        ) && self.epoch < other.epoch)
    }
}

/// Path facts are ordered by source Node UID, destination Node UID, epoch.
impl Keyed for EncryptionPathFact {
    open spec fn key_lt(self, other: Self) -> bool {
        ||| text_lt(self.source_node_uid@, other.source_node_uid@)
        ||| self.source_node_uid@ == other.source_node_uid@ && text_lt(
            self.destination_node_uid@,
            other.destination_node_uid@,
        )
        ||| self.source_node_uid@ == other.source_node_uid@ && self.destination_node_uid@
            == other.destination_node_uid@ && self.epoch < other.epoch
    }

    proof fn lemma_key_order(a: Self, b: Self, c: Self) {
        lemma_text_key(a.source_node_uid@, b.source_node_uid@, c.source_node_uid@);
        lemma_text_key(b.source_node_uid@, a.source_node_uid@, c.source_node_uid@);
        lemma_text_key(a.source_node_uid@, c.source_node_uid@, b.source_node_uid@);
        lemma_text_key(a.destination_node_uid@, b.destination_node_uid@, c.destination_node_uid@);
        lemma_text_key(b.destination_node_uid@, a.destination_node_uid@, c.destination_node_uid@);
        lemma_text_key(a.destination_node_uid@, c.destination_node_uid@, b.destination_node_uid@);
    }

    fn key_less(&self, other: &Self) -> (r: bool) {
        text_less(self.source_node_uid.as_str(), other.source_node_uid.as_str()) || (text_eq(
            self.source_node_uid.as_str(),
            other.source_node_uid.as_str(),
        ) && (text_less(self.destination_node_uid.as_str(), other.destination_node_uid.as_str())
            || (text_eq(self.destination_node_uid.as_str(), other.destination_node_uid.as_str())
            && self.epoch < other.epoch)))
    }
}

} // verus!

verus! {

pub open spec fn all_capabilities() -> Seq<EncryptionCapability> {
    seq![
        EncryptionCapability::KernelWireGuard,
        EncryptionCapability::DualStackUnderlay,
        EncryptionCapability::PolicyRouting,
        EncryptionCapability::TwoEpochRotation,
        EncryptionCapability::EncryptedPathChallenge,
    ]
}

/// The first required capability, in declaration order, that `caps` lacks.
pub open spec fn first_missing_capability(caps: Seq<EncryptionCapability>) -> Option<EncryptionCapability> {
    if !caps.contains(EncryptionCapability::KernelWireGuard) {
        Some(EncryptionCapability::KernelWireGuard)
    } else if !caps.contains(EncryptionCapability::DualStackUnderlay) {
        Some(EncryptionCapability::DualStackUnderlay)
    } else if !caps.contains(EncryptionCapability::PolicyRouting) {
        Some(EncryptionCapability::PolicyRouting)
    } else if !caps.contains(EncryptionCapability::TwoEpochRotation) {
        Some(EncryptionCapability::TwoEpochRotation)
    } else if !caps.contains(EncryptionCapability::EncryptedPathChallenge) {
        Some(EncryptionCapability::EncryptedPathChallenge)
    } else {
        None
    }
}

/// Valid identity text and nonempty, bounded address lists.
pub open spec fn node_identity_ok(n: EncryptionNode) -> bool {
    &&& model_text(n.cluster_id@)
    &&& model_text(n.name@)
    &&& model_text(n.uid@)
    &&& 0 < n.pod_cidrs@.len() <= MAX_ENCRYPTION_PREFIXES_PER_NODE
    &&& 0 < n.underlay_addresses@.len() <= MAX_ENCRYPTION_UNDERLAY_ADDRESSES_PER_NODE
}

/// A unicast underlay address.
pub open spec fn underlay_address_ok(a: IpAddr) -> bool {
    !address_unspecified(a) && !address_loopback(a) && !address_multicast(a)
}

/// Canonical, pairwise disjoint pod prefixes; distinct unicast underlay
/// addresses.
pub open spec fn node_network_ok(n: EncryptionNode) -> bool {
    let pods = n.pod_cidrs@;
    let addrs = n.underlay_addresses@;
    &&& forall|i: int| 0 <= i < pods.len() ==> prefix_canonical(#[trigger] pods[i])
    &&& forall|i: int, j: int| 0 <= i < j < pods.len() ==> !prefixes_overlap(#[trigger] pods[i], #[trigger] pods[j])
    &&& forall|i: int| 0 <= i < addrs.len() ==> underlay_address_ok(#[trigger] addrs[i])
    &&& forall|i: int, j: int| 0 <= i < j < addrs.len() ==> #[trigger] addrs[i] != #[trigger] addrs[j]
}

/// What `canonical_node` rejects a Node for, in the order it checks.
pub open spec fn node_error(n: EncryptionNode) -> Option<EncryptionContractError> {
    if !node_identity_ok(n) {
        Some(EncryptionContractError::InvalidNode("invalid identity or bounds"))
    } else if !node_network_ok(n) {
        Some(EncryptionContractError::InvalidNode("invalid or duplicate network identity"))
    } else if first_missing_capability(n.capabilities@) is Some {
        Some(EncryptionContractError::MissingCapability(first_missing_capability(n.capabilities@)->0))
    } else {
        None
    }
}

/// `out` is the canonical form of `n`: the same identity, its prefixes and
/// addresses in ascending order, and the full capability set.
pub open spec fn node_canonical_of(out: EncryptionNode, n: EncryptionNode) -> bool {
    &&& out.cluster_id@ == n.cluster_id@
    &&& out.name@ == n.name@
    &&& out.uid@ == n.uid@
    &&& out.pod_cidrs@.to_multiset() == n.pod_cidrs@.to_multiset()
    &&& strictly_sorted_by_key(out.pod_cidrs@)
    &&& out.underlay_addresses@.to_multiset() == n.underlay_addresses@.to_multiset()
    &&& strictly_sorted_by_key(out.underlay_addresses@)
    &&& out.capabilities@ == all_capabilities()
}

fn capabilities_list() -> (v: Vec<EncryptionCapability>)
    ensures
        v@ == all_capabilities(),
{
    let v = vec![
        EncryptionCapability::KernelWireGuard,
        EncryptionCapability::DualStackUnderlay,
        EncryptionCapability::PolicyRouting,
        EncryptionCapability::TwoEpochRotation,
        EncryptionCapability::EncryptedPathChallenge,
    ];
    assert(v@ =~= all_capabilities());
    v
}

fn has_capability(caps: &Vec<EncryptionCapability>, c: EncryptionCapability) -> (r: bool)
    ensures
        r == caps@.contains(c),
{
    let mut found = false;
    let mut i: usize = 0;
    while i < caps.len()
        invariant
            i <= caps@.len(),
            found == exists|j: int| 0 <= j < i && caps@[j] == c,
        decreases caps@.len() - i,
    {
        if caps[i] == c {
            found = true;
        }
        i = i + 1;
    }
    found
}

fn first_missing(caps: &Vec<EncryptionCapability>) -> (r: Option<EncryptionCapability>)
    ensures
        r == first_missing_capability(caps@),
{
    if !has_capability(caps, EncryptionCapability::KernelWireGuard) {
        Some(EncryptionCapability::KernelWireGuard)
    } else if !has_capability(caps, EncryptionCapability::DualStackUnderlay) {
        Some(EncryptionCapability::DualStackUnderlay)
    } else if !has_capability(caps, EncryptionCapability::PolicyRouting) {
        Some(EncryptionCapability::PolicyRouting)
    } else if !has_capability(caps, EncryptionCapability::TwoEpochRotation) {
        Some(EncryptionCapability::TwoEpochRotation)
    } else if !has_capability(caps, EncryptionCapability::EncryptedPathChallenge) {
        Some(EncryptionCapability::EncryptedPathChallenge)
    } else {
        None
    }
}

/// Any two of the prefixes overlap.
fn has_overlapping_prefixes(prefixes: &Vec<IpPrefix>) -> (r: bool)
    ensures
        r == exists|i: int, j: int|
            0 <= i < j < prefixes@.len() && prefixes_overlap(#[trigger] prefixes@[i], #[trigger] prefixes@[j]),
{
    let n = prefixes.len();
    let mut found = false;
    let mut i: usize = 0;
    while i < n
        invariant
            n == prefixes@.len(),
            i <= n,
            found == exists|a: int, b: int|
                0 <= a < b < n && a < i && prefixes_overlap(#[trigger] prefixes@[a], #[trigger] prefixes@[b]),
        decreases n - i,
    {
        let mut j: usize = i + 1;
        while j < n
            invariant
                n == prefixes@.len(),
                i < n,
                i + 1 <= j <= n,
                found == ((exists|a: int, b: int|
                    0 <= a < b < n && a < i && prefixes_overlap(#[trigger] prefixes@[a], #[trigger] prefixes@[b]))
                    || (exists|b: int| i < b < j && prefixes_overlap(prefixes@[i as int], #[trigger] prefixes@[b]))),
            decreases n - j,
        {
            if prefixes[i].overlaps(prefixes[j]) {
                found = true;
            }
            j = j + 1;
        }
        proof {
            if exists|b: int| i < b < n && prefixes_overlap(prefixes@[i as int], #[trigger] prefixes@[b]) {
                let b = choose|b: int| i < b < n && prefixes_overlap(prefixes@[i as int], #[trigger] prefixes@[b]);
                assert(prefixes_overlap(prefixes@[i as int], prefixes@[b]));
            }
            if !found {
                assert forall|a: int, b: int| 0 <= a < b < n && a < i + 1 implies !prefixes_overlap(
                    #[trigger] prefixes@[a],
                    #[trigger] prefixes@[b],
                ) by {
                    if a == i {
                        assert(j == n);
                        assert(!prefixes_overlap(prefixes@[i as int], prefixes@[b]));
                    } else {
                        assert(a < i);
                    }
                }
            }
        }
        i = i + 1;
    }
    found
}

fn network_ok(pods: &Vec<IpPrefix>, addrs: &Vec<IpAddr>) -> (r: bool)
    ensures
        r == (
        (forall|i: int| 0 <= i < pods@.len() ==> prefix_canonical(#[trigger] pods@[i]))
        && (forall|i: int, j: int| 0 <= i < j < pods@.len() ==> !prefixes_overlap(#[trigger] pods@[i], #[trigger] pods@[j]))
        && (forall|i: int| 0 <= i < addrs@.len() ==> underlay_address_ok(#[trigger] addrs@[i]))
        && (forall|i: int, j: int| 0 <= i < j < addrs@.len() ==> #[trigger] addrs@[i] != #[trigger] addrs@[j])),
{
    let mut canonical = true;
    let mut i: usize = 0;
    while i < pods.len()
        invariant
            i <= pods@.len(),
            canonical == forall|k: int| 0 <= k < i ==> prefix_canonical(#[trigger] pods@[k]),
        decreases pods@.len() - i,
    {
        if !pods[i].is_canonical() {
            canonical = false;
        }
        i = i + 1;
    }
    let overlapping = has_overlapping_prefixes(pods);
    let mut unicast = true;
    let mut distinct = true;
    let m = addrs.len();
    let mut a: usize = 0;
    while a < m
        invariant
            m == addrs@.len(),
            a <= m,
            unicast == forall|k: int| 0 <= k < a ==> underlay_address_ok(#[trigger] addrs@[k]),
            distinct == forall|x: int, y: int| 0 <= x < y < m && x < a ==> #[trigger] addrs@[x] != #[trigger] addrs@[y],
        decreases m - a,
    {
        let x = addrs[a];
        if x.is_unspecified() || x.is_loopback() || x.is_multicast() {
            unicast = false;
        }
        let mut b: usize = a + 1;
        while b < m
            invariant
                m == addrs@.len(),
                a < m,
                a + 1 <= b <= m,
                x == addrs@[a as int],
                distinct == ((forall|p: int, q: int| 0 <= p < q < m && p < a ==> #[trigger] addrs@[p] != #[trigger] addrs@[q])
                    && (forall|q: int| a < q < b ==> x != #[trigger] addrs@[q])),
            decreases m - b,
        {
            if addrs[b] == x {
                distinct = false;
            }
            b = b + 1;
        }
        a = a + 1;
    }
    canonical && !overlapping && unicast && distinct
}

/// A canonical prefix contains its own network address.
proof fn lemma_prefix_self_overlap(p: IpPrefix)
    requires
        prefix_canonical(p),
    ensures
        prefixes_overlap(p, p),
{
}

/// Checks a Node's identity, bounds, network identity, and capabilities, and
/// puts its prefixes and addresses in ascending order.
pub fn canonical_node(node: EncryptionNode) -> (r: Result<EncryptionNode, EncryptionContractError>)
    ensures
        match node_error(node) {
            Some(e) => r == Err::<EncryptionNode, EncryptionContractError>(e),
            None => r matches Ok(out) && node_canonical_of(out, node),
        },
{
    if !validate_text(node.cluster_id.as_str()) || !validate_text(node.name.as_str()) || !validate_text(
        node.uid.as_str(),
    ) || node.pod_cidrs.len() == 0 || node.pod_cidrs.len() > MAX_ENCRYPTION_PREFIXES_PER_NODE
        || node.underlay_addresses.len() == 0 || node.underlay_addresses.len()
        > MAX_ENCRYPTION_UNDERLAY_ADDRESSES_PER_NODE {
        return Err(EncryptionContractError::InvalidNode("invalid identity or bounds"));
    }
    if !network_ok(&node.pod_cidrs, &node.underlay_addresses) {
        return Err(EncryptionContractError::InvalidNode("invalid or duplicate network identity"));
    }
    match first_missing(&node.capabilities) {
        Some(c) => {
            return Err(EncryptionContractError::MissingCapability(c));
        },
        None => {},
    }
    let ghost input = node;
    proof {
        assert forall|i: int, j: int| 0 <= i < j < input.pod_cidrs@.len() implies !key_eq(
            #[trigger] input.pod_cidrs@[i],
            #[trigger] input.pod_cidrs@[j],
        ) by {
            crate::address::lemma_prefix_total(input.pod_cidrs@[i], input.pod_cidrs@[j]);
            if input.pod_cidrs@[i] == input.pod_cidrs@[j] {
                lemma_prefix_self_overlap(input.pod_cidrs@[i]);
            }
        }
    }
    let EncryptionNode { cluster_id, name, uid, pod_cidrs, underlay_addresses, capabilities: _ } = node;
    let pods = match sort_unique_by_key(pod_cidrs) {
        Some(v) => v,
        None => {
            return Err(EncryptionContractError::InvalidNode("invalid or duplicate network identity"));
        },
    };
    let addrs = match sort_unique_by_key(underlay_addresses) {
        Some(v) => v,
        None => {
            return Err(EncryptionContractError::InvalidNode("invalid or duplicate network identity"));
        },
    };
    Ok(
        EncryptionNode {
            cluster_id,
            name,
            uid,
            pod_cidrs: pods,
            underlay_addresses: addrs,
            capabilities: capabilities_list(),
        },
    )
}

} // verus!

verus! {

/// Equal canonical forms: the same identity and the same prefixes and
/// addresses, in whatever order they were given.
pub open spec fn node_equiv(a: EncryptionNode, b: EncryptionNode) -> bool {
    &&& a.cluster_id@ == b.cluster_id@
    &&& a.name@ == b.name@
    &&& a.uid@ == b.uid@
    &&& a.pod_cidrs@.to_multiset() == b.pod_cidrs@.to_multiset()
    &&& a.underlay_addresses@.to_multiset() == b.underlay_addresses@.to_multiset()
}

/// Field-wise equality of two Nodes.
pub open spec fn node_same(a: EncryptionNode, b: EncryptionNode) -> bool {
    &&& a.cluster_id@ == b.cluster_id@
    &&& a.name@ == b.name@
    &&& a.uid@ == b.uid@
    &&& a.pod_cidrs@ == b.pod_cidrs@
    &&& a.underlay_addresses@ == b.underlay_addresses@
    &&& a.capabilities@ == b.capabilities@
}

pub fn node_equal(a: &EncryptionNode, b: &EncryptionNode) -> (r: bool)
    ensures
        r == node_same(*a, *b),
{
    if !text_eq(a.cluster_id.as_str(), b.cluster_id.as_str()) || !text_eq(a.name.as_str(), b.name.as_str())
        || !text_eq(a.uid.as_str(), b.uid.as_str()) || a.pod_cidrs.len() != b.pod_cidrs.len()
        || a.underlay_addresses.len() != b.underlay_addresses.len() || a.capabilities.len()
        != b.capabilities.len() {
        return false;
    }
    let mut same = true;
    let mut i: usize = 0;
    while i < a.pod_cidrs.len()
        invariant
            a.pod_cidrs@.len() == b.pod_cidrs@.len(),
            i <= a.pod_cidrs@.len(),
            same == forall|j: int| 0 <= j < i ==> a.pod_cidrs@[j] == b.pod_cidrs@[j],
        decreases a.pod_cidrs@.len() - i,
    {
        if a.pod_cidrs[i] != b.pod_cidrs[i] {
            same = false;
        }
        i = i + 1;
    }
    let mut k: usize = 0;
    while k < a.underlay_addresses.len()
        invariant
            a.underlay_addresses@.len() == b.underlay_addresses@.len(),
            k <= a.underlay_addresses@.len(),
            same == ((forall|j: int| 0 <= j < a.pod_cidrs@.len() ==> a.pod_cidrs@[j] == b.pod_cidrs@[j])
                && forall|j: int| 0 <= j < k ==> a.underlay_addresses@[j] == b.underlay_addresses@[j]),
        decreases a.underlay_addresses@.len() - k,
    {
        if a.underlay_addresses[k] != b.underlay_addresses[k] {
            same = false;
        }
        k = k + 1;
    }
    let mut c: usize = 0;
    while c < a.capabilities.len()
        invariant
            a.capabilities@.len() == b.capabilities@.len(),
            c <= a.capabilities@.len(),
            same == ((forall|j: int| 0 <= j < a.pod_cidrs@.len() ==> a.pod_cidrs@[j] == b.pod_cidrs@[j])
                && (forall|j: int| 0 <= j < a.underlay_addresses@.len() ==> a.underlay_addresses@[j]
                == b.underlay_addresses@[j]) && forall|j: int| 0 <= j < c ==> a.capabilities@[j] == b.capabilities@[j]),
        decreases a.capabilities@.len() - c,
    {
        if a.capabilities[c] != b.capabilities[c] {
            same = false;
        }
        c = c + 1;
    }
    proof {
        if same {
            assert(a.pod_cidrs@ =~= b.pod_cidrs@);
            assert(a.underlay_addresses@ =~= b.underlay_addresses@);
            assert(a.capabilities@ =~= b.capabilities@);
        }
    }
    same
}

fn copy_vec<T: Copy>(v: &Vec<T>) -> (r: Vec<T>)
    ensures
        r@ == v@,
{
    let mut r: Vec<T> = Vec::new();
    let mut i: usize = 0;
    while i < v.len()
        invariant
            i <= v@.len(),
            r@ == v@.take(i as int),
        decreases v@.len() - i,
    {
        r.push(v[i]);
        assert(r@ =~= v@.take(i + 1));
        i = i + 1;
    }
    assert(v@.take(i as int) =~= v@);
    r
}

impl EncryptionNode {
    /// An equal copy.
    pub fn duplicate(&self) -> (r: Self)
        ensures
            node_same(r, *self),
    {
        EncryptionNode {
            cluster_id: self.cluster_id.clone(),
            name: self.name.clone(),
            uid: self.uid.clone(),
            pod_cidrs: copy_vec(&self.pod_cidrs),
            underlay_addresses: copy_vec(&self.underlay_addresses),
            capabilities: copy_vec(&self.capabilities),
        }
    }
}

/// Canonical Nodes are equal exactly when their inputs are equivalent.
pub proof fn lemma_canonical_node_same(c1: EncryptionNode, n1: EncryptionNode, c2: EncryptionNode, n2: EncryptionNode)
    requires
        node_canonical_of(c1, n1),
        node_canonical_of(c2, n2),
    ensures
        node_same(c1, c2) == node_equiv(n1, n2),
{
    if node_equiv(n1, n2) {
        crate::sorting::lemma_sorted_unique(c1.pod_cidrs@, c2.pod_cidrs@);
        crate::sorting::lemma_sorted_unique(c1.underlay_addresses@, c2.underlay_addresses@);
    }
}

/// What rejects one endpoint fact, before Nodes are compared.
pub open spec fn endpoint_error(e: EncryptionEndpointFact) -> Option<EncryptionContractError> {
    if e.identity.0 == 0 || !model_text(e.workload_uid@) {
        Some(EncryptionContractError::InvalidEndpoint)
    } else {
        node_error(e.node)
    }
}

/// The first endpoint fact that is rejected, in input order.
pub open spec fn first_endpoint_error(v: Seq<EncryptionEndpointFact>) -> Option<EncryptionContractError>
    decreases v.len(),
{
    if v.len() == 0 {
        None
    } else if first_endpoint_error(v.drop_last()) is Some {
        first_endpoint_error(v.drop_last())
    } else {
        endpoint_error(v.last())
    }
}

/// Two endpoint facts disagree on a Node UID, a Node name, or a workload.
pub open spec fn endpoint_conflict(a: EncryptionEndpointFact, b: EncryptionEndpointFact) -> bool {
    ||| a.node.uid@ == b.node.uid@ && !node_equiv(a.node, b.node)
    ||| a.node.name@ == b.node.name@ && a.node.uid@ != b.node.uid@
    ||| a.workload_uid@ == b.workload_uid@ && (a.identity != b.identity || a.node.uid@ != b.node.uid@)
}

pub open spec fn endpoints_conflict(v: Seq<EncryptionEndpointFact>) -> bool {
    exists|i: int, j: int| 0 <= i < j < v.len() && endpoint_conflict(#[trigger] v[i], #[trigger] v[j])
}

/// `out` is `e` with its Node in canonical form.
pub open spec fn endpoint_canonical_of(out: EncryptionEndpointFact, e: EncryptionEndpointFact) -> bool {
    &&& out.identity == e.identity
    &&& out.workload_uid@ == e.workload_uid@
    &&& node_canonical_of(out.node, e.node)
}

/// `out` holds exactly the canonical forms of `v`, ordered by key.
pub open spec fn endpoints_canonical_of(out: Seq<EncryptionEndpointFact>, v: Seq<EncryptionEndpointFact>) -> bool {
    &&& out.len() == v.len()
    &&& strictly_sorted_by_key(out)
    &&& forall|i: int| 0 <= i < out.len() ==> endpoint_drawn_from(#[trigger] out[i], v)
    &&& forall|j: int| 0 <= j < v.len() ==> endpoint_kept_in(#[trigger] v[j], out)
}

/// `x` is the canonical form of some element of `v`.
#[verifier::opaque]
pub open spec fn endpoint_drawn_from(x: EncryptionEndpointFact, v: Seq<EncryptionEndpointFact>) -> bool {
    exists|j: int| 0 <= j < v.len() && endpoint_canonical_of(x, v[j])
}

/// Some element of `out` is the canonical form of `y`.
#[verifier::opaque]
pub open spec fn endpoint_kept_in(y: EncryptionEndpointFact, out: Seq<EncryptionEndpointFact>) -> bool {
    exists|i: int| 0 <= i < out.len() && endpoint_canonical_of(out[i], y)
}

pub const CONFLICTING_NODE_FACTS: &'static str = "Node name, UID, or workload UID has conflicting facts";

fn endpoints_conflicting(c: &Vec<EncryptionEndpointFact>, Ghost(v): Ghost<Seq<EncryptionEndpointFact>>) -> (r: bool)
    requires
        c@.len() == v.len(),
        forall|i: int| 0 <= i < v.len() ==> endpoint_canonical_of(#[trigger] c@[i], v[i]),
    ensures
        r == endpoints_conflict(v),
{
    let n = c.len();
    let mut found = false;
    let mut i: usize = 0;
    while i < n
        invariant
            n == c@.len(),
            n == v.len(),
            forall|q: int| 0 <= q < v.len() ==> endpoint_canonical_of(#[trigger] c@[q], v[q]),
            i <= n,
            found == exists|a: int, b: int| 0 <= a < b < n && a < i && endpoint_conflict(#[trigger] v[a], #[trigger] v[b]),
        decreases n - i,
    {
        let mut j: usize = i + 1;
        while j < n
            invariant
                n == c@.len(),
                n == v.len(),
                forall|q: int| 0 <= q < v.len() ==> endpoint_canonical_of(#[trigger] c@[q], v[q]),
                i < n,
                i + 1 <= j <= n,
                found == ((exists|a: int, b: int| 0 <= a < b < n && a < i && endpoint_conflict(#[trigger] v[a], #[trigger] v[b]))
                    || (exists|b: int| i < b < j && endpoint_conflict(v[i as int], #[trigger] v[b]))),
            decreases n - j,
        {
            let x = &c[i];
            let y = &c[j];
            proof {
                assert(endpoint_canonical_of(c@[i as int], v[i as int]));
                assert(endpoint_canonical_of(c@[j as int], v[j as int]));
                lemma_canonical_node_same(x.node, v[i as int].node, y.node, v[j as int].node);
            }
            let uid_same = text_eq(x.node.uid.as_str(), y.node.uid.as_str());
            if (uid_same && !node_equal(&x.node, &y.node)) || (text_eq(x.node.name.as_str(), y.node.name.as_str())
                && !uid_same) || (text_eq(x.workload_uid.as_str(), y.workload_uid.as_str()) && (x.identity.0
                != y.identity.0 || !uid_same)) {
                found = true;
            }
            j = j + 1;
        }
        proof {
            if exists|b: int| i < b < n && endpoint_conflict(v[i as int], #[trigger] v[b]) {
                let b = choose|b: int| i < b < n && endpoint_conflict(v[i as int], #[trigger] v[b]);
                assert(endpoint_conflict(v[i as int], v[b]));
            }
            if !found {
                assert forall|a: int, b: int| 0 <= a < b < n && a < i + 1 implies !endpoint_conflict(
                    #[trigger] v[a],
                    #[trigger] v[b],
                ) by {
                    if a == i {
                        assert(j == n);
                        assert(!endpoint_conflict(v[i as int], v[b]));
                    } else {
                        assert(a < i);
                    }
                }
            }
        }
        i = i + 1;
    }
    found
}

/// Validates every endpoint fact, puts its Node in canonical form, rejects
/// conflicting facts, and orders the endpoints by identity, workload UID,
/// and Node UID.
pub fn canonical_endpoints(endpoints: &Vec<EncryptionEndpointFact>) -> (r: Result<
    Vec<EncryptionEndpointFact>,
    EncryptionContractError,
>)
    ensures
        first_endpoint_error(endpoints@) matches Some(e) ==> r == Err::<
            Vec<EncryptionEndpointFact>,
            EncryptionContractError,
        >(e),
        first_endpoint_error(endpoints@) is None && endpoints_conflict(endpoints@) ==> r == Err::<
            Vec<EncryptionEndpointFact>,
            EncryptionContractError,
        >(EncryptionContractError::InvalidNode(CONFLICTING_NODE_FACTS)),
        first_endpoint_error(endpoints@) is None && !endpoints_conflict(endpoints@) && !keys_distinct(
            endpoints@,
        ) ==> r == Err::<Vec<EncryptionEndpointFact>, EncryptionContractError>(
            EncryptionContractError::InvalidEndpoint,
        ),
        first_endpoint_error(endpoints@) is None && !endpoints_conflict(endpoints@) && keys_distinct(
            endpoints@,
        ) ==> (r matches Ok(out) && endpoints_canonical_of(out@, endpoints@)),
{
    let n = endpoints.len();
    let mut canon: Vec<EncryptionEndpointFact> = Vec::new();
    let mut i: usize = 0;
    while i < n
        invariant
            n == endpoints@.len(),
            i <= n,
            canon@.len() == i,
            first_endpoint_error(endpoints@.take(i as int)) is None,
            forall|q: int| 0 <= q < i ==> endpoint_canonical_of(#[trigger] canon@[q], endpoints@[q]),
        decreases n - i,
    {
        let e = &endpoints[i];
        proof {
            assert(endpoints@.take(i + 1).drop_last() =~= endpoints@.take(i as int));
            assert(endpoints@.take(i + 1).last() == endpoints@[i as int]);
        }
        if e.identity.0 == 0 || !validate_text(e.workload_uid.as_str()) {
            proof {
                lemma_first_endpoint_error_prefix(endpoints@, i as int + 1);
            }
            return Err(EncryptionContractError::InvalidEndpoint);
        }
        let node = match canonical_node(e.node.duplicate()) {
            Ok(node) => node,
            Err(error) => {
                proof {
                    lemma_first_endpoint_error_prefix(endpoints@, i as int + 1);
                }
                return Err(error);
            },
        };
        canon.push(EncryptionEndpointFact { identity: e.identity, workload_uid: e.workload_uid.clone(), node });
        i = i + 1;
    }
    proof {
        assert(endpoints@.take(n as int) =~= endpoints@);
    }
    if endpoints_conflicting(&canon, Ghost(endpoints@)) {
        return Err(EncryptionContractError::InvalidNode(CONFLICTING_NODE_FACTS));
    }
    let ghost c = canon@;
    proof {
        assert forall|a: int, b: int| 0 <= a < b < c.len() implies (key_eq(#[trigger] c[a], #[trigger] c[b]) == key_eq(
            endpoints@[a],
            endpoints@[b],
        )) by {
            assert(endpoint_canonical_of(c[a], endpoints@[a]));
            assert(endpoint_canonical_of(c[b], endpoints@[b]));
        }
        if keys_distinct(endpoints@) {
            assert(keys_distinct(c));
        }
        if keys_distinct(c) {
            assert forall|a: int, b: int| 0 <= a < b < c.len() implies !key_eq(#[trigger] endpoints@[a], #[trigger] endpoints@[b]) by {
                assert(!key_eq(c[a], c[b]));
            }
        }
    }
    let sorted = match sort_unique_by_key(canon) {
        Some(v) => v,
        None => {
            return Err(EncryptionContractError::InvalidEndpoint);
        },
    };
    proof {
        reveal(endpoint_drawn_from);
        reveal(endpoint_kept_in);
        assert forall|q: int| 0 <= q < sorted@.len() implies endpoint_drawn_from(#[trigger] sorted@[q], endpoints@) by {
            assert(sorted@.contains(sorted@[q]));
            vstd::seq_lib::to_multiset_contains(sorted@, sorted@[q]);
            vstd::seq_lib::to_multiset_contains(c, sorted@[q]);
            let j = choose|j: int| 0 <= j < c.len() && c[j] == sorted@[q];
            assert(endpoint_canonical_of(c[j], endpoints@[j]));
        }
        assert forall|j: int| 0 <= j < endpoints@.len() implies endpoint_kept_in(#[trigger] endpoints@[j], sorted@) by {
            assert(c.contains(c[j]));
            vstd::seq_lib::to_multiset_contains(c, c[j]);
            vstd::seq_lib::to_multiset_contains(sorted@, c[j]);
            let q = choose|q: int| 0 <= q < sorted@.len() && sorted@[q] == c[j];
            assert(endpoint_canonical_of(c[j], endpoints@[j]));
        }
        vstd::seq_lib::to_multiset_len(sorted@);
        vstd::seq_lib::to_multiset_len(c);
    }
    Ok(sorted)
}

proof fn lemma_first_endpoint_error_prefix(v: Seq<EncryptionEndpointFact>, k: int)
    requires
        0 < k <= v.len(),
        first_endpoint_error(v.take(k)) is Some,
    ensures
        first_endpoint_error(v) == first_endpoint_error(v.take(k)),
    decreases v.len() - k,
{
    if k < v.len() {
        assert(v.take(k + 1).drop_last() =~= v.take(k));
        lemma_first_endpoint_error_prefix(v, k + 1);
    } else {
        assert(v.take(k) =~= v);
    }
}

} // verus!

verus! {

/// Nonzero identities and nonzero, distinct policy IDs.
pub open spec fn policy_fact_ok(p: EncryptionPolicyFact) -> bool {
    &&& p.source.0 != 0
    &&& p.destination.0 != 0
    &&& forall|k: int| 0 <= k < p.policy_ids@.len() ==> (#[trigger] p.policy_ids@[k]).0 != 0
    &&& keys_distinct(p.policy_ids@)
}

/// `out` is `p` with its policy IDs in ascending order.
pub open spec fn policy_canonical_of(out: EncryptionPolicyFact, p: EncryptionPolicyFact) -> bool {
    &&& out.source == p.source
    &&& out.destination == p.destination
    &&& out.allowed == p.allowed
    &&& out.policy_ids@.to_multiset() == p.policy_ids@.to_multiset()
    &&& strictly_sorted_by_key(out.policy_ids@)
}

pub open spec fn policies_canonical_of(out: Seq<EncryptionPolicyFact>, v: Seq<EncryptionPolicyFact>) -> bool {
    &&& out.len() == v.len()
    &&& strictly_sorted_by_key(out)
    &&& forall|i: int| 0 <= i < out.len() ==> policy_drawn_from(#[trigger] out[i], v)
    &&& forall|j: int| 0 <= j < v.len() ==> policy_kept_in(#[trigger] v[j], out)
}

/// `x` is the canonical form of some element of `v`.
#[verifier::opaque]
pub open spec fn policy_drawn_from(x: EncryptionPolicyFact, v: Seq<EncryptionPolicyFact>) -> bool {
    exists|j: int| 0 <= j < v.len() && policy_canonical_of(x, v[j])
}

/// Some element of `out` is the canonical form of `y`.
#[verifier::opaque]
pub open spec fn policy_kept_in(y: EncryptionPolicyFact, out: Seq<EncryptionPolicyFact>) -> bool {
    exists|i: int| 0 <= i < out.len() && policy_canonical_of(out[i], y)
}

/// Validates every policy fact and orders facts by identity pair and IDs
/// ascending; one fact per pair.
pub fn canonical_policies(policies: &Vec<EncryptionPolicyFact>) -> (r: Result<
    Vec<EncryptionPolicyFact>,
    EncryptionContractError,
>)
    ensures
        r is Ok <==> (forall|i: int| 0 <= i < policies@.len() ==> policy_fact_ok(#[trigger] policies@[i]))
            && keys_distinct(policies@),
        r is Err ==> r == Err::<Vec<EncryptionPolicyFact>, EncryptionContractError>(
            EncryptionContractError::InvalidPolicy,
        ),
        r matches Ok(out) ==> policies_canonical_of(out@, policies@),
{
    let n = policies.len();
    let mut canon: Vec<EncryptionPolicyFact> = Vec::new();
    let mut i: usize = 0;
    while i < n
        invariant
            n == policies@.len(),
            i <= n,
            canon@.len() == i,
            forall|q: int| 0 <= q < i ==> policy_fact_ok(#[trigger] policies@[q]),
            forall|q: int| 0 <= q < i ==> policy_canonical_of(#[trigger] canon@[q], policies@[q]),
        decreases n - i,
    {
        let p = &policies[i];
        if p.source.0 == 0 || p.destination.0 == 0 {
            return Err(EncryptionContractError::InvalidPolicy);
        }
        let mut nonzero = true;
        let mut k: usize = 0;
        while k < p.policy_ids.len()
            invariant
                k <= p.policy_ids@.len(),
                nonzero == forall|j: int| 0 <= j < k ==> (#[trigger] p.policy_ids@[j]).0 != 0,
            decreases p.policy_ids@.len() - k,
        {
            if p.policy_ids[k].0 == 0 {
                nonzero = false;
            }
            k = k + 1;
        }
        if !nonzero {
            return Err(EncryptionContractError::InvalidPolicy);
        }
        let ids = match sort_unique_by_key(copy_vec(&p.policy_ids)) {
            Some(ids) => ids,
            None => {
                return Err(EncryptionContractError::InvalidPolicy);
            },
        };
        canon.push(
            EncryptionPolicyFact {
                source: p.source,
                destination: p.destination,
                allowed: p.allowed,
                policy_ids: ids,
            },
        );
        i = i + 1;
    }
    let ghost c = canon@;
    proof {
        assert forall|a: int, b: int| 0 <= a < b < c.len() implies (key_eq(#[trigger] c[a], #[trigger] c[b]) == key_eq(
            policies@[a],
            policies@[b],
        )) by {
            assert(policy_canonical_of(c[a], policies@[a]));
            assert(policy_canonical_of(c[b], policies@[b]));
        }
        if keys_distinct(policies@) {
            assert(keys_distinct(c));
        }
        if keys_distinct(c) {
            assert forall|a: int, b: int| 0 <= a < b < c.len() implies !key_eq(#[trigger] policies@[a], #[trigger] policies@[b]) by {
                assert(!key_eq(c[a], c[b]));
            }
        }
    }
    let sorted = match sort_unique_by_key(canon) {
        Some(v) => v,
        None => {
            return Err(EncryptionContractError::InvalidPolicy);
        },
    };
    proof {
        reveal(policy_drawn_from);
        reveal(policy_kept_in);
        assert forall|q: int| 0 <= q < sorted@.len() implies policy_drawn_from(#[trigger] sorted@[q], policies@) by {
            assert(sorted@.contains(sorted@[q]));
            vstd::seq_lib::to_multiset_contains(sorted@, sorted@[q]);
            vstd::seq_lib::to_multiset_contains(c, sorted@[q]);
            let j = choose|j: int| 0 <= j < c.len() && c[j] == sorted@[q];
            assert(policy_canonical_of(c[j], policies@[j]));
        }
        assert forall|j: int| 0 <= j < policies@.len() implies policy_kept_in(#[trigger] policies@[j], sorted@) by {
            assert(c.contains(c[j]));
            vstd::seq_lib::to_multiset_contains(c, c[j]);
            vstd::seq_lib::to_multiset_contains(sorted@, c[j]);
            let q = choose|q: int| 0 <= q < sorted@.len() && sorted@[q] == c[j];
            assert(policy_canonical_of(c[j], policies@[j]));
        }
        vstd::seq_lib::to_multiset_len(sorted@);
        vstd::seq_lib::to_multiset_len(c);
        assert(sorted@.len() == policies@.len());
        assert(strictly_sorted_by_key(sorted@));
    }
    Ok(sorted)
}

/// A valid Node UID, a nonzero epoch and public key, and a nonempty
/// lifetime that starts after the epoch of time.
pub open spec fn key_fact_ok(k: EncryptionKeyFact) -> bool {
    &&& model_text(k.node_uid@)
    &&& k.epoch != 0
    &&& !crate::digest::all_zero(k.public_key.0@)
    &&& k.valid_from_unix_ms != 0
    &&& k.valid_from_unix_ms < k.valid_until_unix_ms
}

/// No public key is published twice for one epoch.
pub open spec fn public_keys_distinct(v: Seq<EncryptionKeyFact>) -> bool {
    forall|i: int, j: int|
        0 <= i < j < v.len() ==> !((#[trigger] v[i]).epoch == (#[trigger] v[j]).epoch && v[i].public_key.0@
            == v[j].public_key.0@)
}

/// What `canonical_keys` accepts.
pub open spec fn keys_ok(v: Seq<EncryptionKeyFact>) -> bool {
    &&& forall|i: int| 0 <= i < v.len() ==> key_fact_ok(#[trigger] v[i])
    &&& public_keys_distinct(v)
    &&& keys_distinct(v)
}

impl EncryptionKeyFact {
    pub fn duplicate(&self) -> (r: Self)
        ensures
            r == *self,
    {
        EncryptionKeyFact {
            node_uid: self.node_uid.clone(),
            epoch: self.epoch,
            public_key: self.public_key,
            phase: self.phase,
            valid_from_unix_ms: self.valid_from_unix_ms,
            valid_until_unix_ms: self.valid_until_unix_ms,
        }
    }
}

/// Validates every key fact and orders them by Node UID and epoch: one key
/// per Node and epoch, and no public key reused within an epoch.
pub fn canonical_keys(keys: &Vec<EncryptionKeyFact>) -> (r: Result<Vec<EncryptionKeyFact>, EncryptionContractError>)
    ensures
        r is Ok <==> keys_ok(keys@),
        r is Err ==> r == Err::<Vec<EncryptionKeyFact>, EncryptionContractError>(
            EncryptionContractError::InvalidKey,
        ),
        r matches Ok(out) ==> out@.to_multiset() == keys@.to_multiset() && strictly_sorted_by_key(out@),
{
    let n = keys.len();
    let mut copy: Vec<EncryptionKeyFact> = Vec::new();
    let mut i: usize = 0;
    while i < n
        invariant
            n == keys@.len(),
            i <= n,
            copy@ == keys@.take(i as int),
            forall|q: int| 0 <= q < i ==> key_fact_ok(#[trigger] keys@[q]),
            public_keys_distinct(keys@.take(i as int)),
        decreases n - i,
    {
        let k = &keys[i];
        if !validate_text(k.node_uid.as_str()) || k.epoch == 0 || crate::digest::bytes32_is_zero(
            &k.public_key.0,
        ) || k.valid_from_unix_ms == 0 || k.valid_from_unix_ms >= k.valid_until_unix_ms {
            return Err(EncryptionContractError::InvalidKey);
        }
        let mut reused = false;
        let mut j: usize = 0;
        while j < i
            invariant
                i < n,
                n == keys@.len(),
                j <= i,
                *k == keys@[i as int],
                reused == exists|q: int| 0 <= q < j && keys@[q].epoch == k.epoch && keys@[q].public_key.0@ == k.public_key.0@,
            decreases i - j,
        {
            if keys[j].epoch == k.epoch && crate::digest::bytes32_eq(&keys[j].public_key.0, &k.public_key.0) {
                reused = true;
            }
            j = j + 1;
        }
        if reused {
            proof {
                let q = choose|q: int| 0 <= q < i && keys@[q].epoch == k.epoch && keys@[q].public_key.0@ == k.public_key.0@;
                assert(!public_keys_distinct(keys@)) by {
                    assert(keys@[q].epoch == keys@[i as int].epoch);
                }
            }
            return Err(EncryptionContractError::InvalidKey);
        }
        copy.push(k.duplicate());
        proof {
            assert(copy@ =~= keys@.take(i + 1));
            assert forall|a: int, b: int| 0 <= a < b < i + 1 implies !((#[trigger] keys@.take(i + 1)[a]).epoch
                == (#[trigger] keys@.take(i + 1)[b]).epoch && keys@.take(i + 1)[a].public_key.0@ == keys@.take(i + 1)[b].public_key.0@) by {
                if b < i {
                    assert(keys@.take(i as int)[a] == keys@[a]);
                    assert(keys@.take(i as int)[b] == keys@[b]);
                }
            }
        }
        i = i + 1;
    }
    proof {
        assert(keys@.take(n as int) =~= keys@);
    }
    sort_unique_by_key(copy).ok_or(EncryptionContractError::InvalidKey)
}

/// `out` is `p` with its AllowedIPs in ascending order.
pub open spec fn path_canonical_of(out: EncryptionPathFact, p: EncryptionPathFact) -> bool {
    &&& out.source_node_uid@ == p.source_node_uid@
    &&& out.destination_node_uid@ == p.destination_node_uid@
    &&& out.epoch == p.epoch
    &&& out.path_class == p.path_class
    &&& out.peer_endpoint == p.peer_endpoint
    &&& out.allowed_ips@.to_multiset() == p.allowed_ips@.to_multiset()
    &&& strictly_sorted_by_key(out.allowed_ips@)
    &&& out.interface_name@ == p.interface_name@
    &&& out.route_table == p.route_table
    &&& out.fwmark == p.fwmark
    &&& out.mtu == p.mtu
}

pub open spec fn paths_canonical_of(out: Seq<EncryptionPathFact>, v: Seq<EncryptionPathFact>) -> bool {
    &&& out.len() == v.len()
    &&& strictly_sorted_by_key(out)
    &&& forall|i: int| 0 <= i < out.len() ==> path_drawn_from(#[trigger] out[i], v)
    &&& forall|j: int| 0 <= j < v.len() ==> path_kept_in(#[trigger] v[j], out)
}

/// `x` is the canonical form of some element of `v`.
#[verifier::opaque]
pub open spec fn path_drawn_from(x: EncryptionPathFact, v: Seq<EncryptionPathFact>) -> bool {
    exists|j: int| 0 <= j < v.len() && path_canonical_of(x, v[j])
}

/// Some element of `out` is the canonical form of `y`.
#[verifier::opaque]
pub open spec fn path_kept_in(y: EncryptionPathFact, out: Seq<EncryptionPathFact>) -> bool {
    exists|i: int| 0 <= i < out.len() && path_canonical_of(out[i], y)
}

pub const DUPLICATE_ALLOWED_IPS: &'static str = "duplicate AllowedIPs";

pub const DUPLICATE_DIRECTIONAL_PATH: &'static str = "duplicate directional path";

/// Orders every path's AllowedIPs and the paths by source Node, destination
/// Node, and epoch; one path per direction and epoch.
pub fn canonical_paths(paths: &Vec<EncryptionPathFact>) -> (r: Result<Vec<EncryptionPathFact>, EncryptionContractError>)
    ensures
        (exists|i: int| 0 <= i < paths@.len() && !keys_distinct((#[trigger] paths@[i]).allowed_ips@)) ==> r
            == Err::<Vec<EncryptionPathFact>, EncryptionContractError>(
            EncryptionContractError::InvalidPath(DUPLICATE_ALLOWED_IPS),
        ),
        (forall|i: int| 0 <= i < paths@.len() ==> keys_distinct((#[trigger] paths@[i]).allowed_ips@)) && !keys_distinct(
            paths@,
        ) ==> r == Err::<Vec<EncryptionPathFact>, EncryptionContractError>(
            EncryptionContractError::InvalidPath(DUPLICATE_DIRECTIONAL_PATH),
        ),
        (forall|i: int| 0 <= i < paths@.len() ==> keys_distinct((#[trigger] paths@[i]).allowed_ips@)) && keys_distinct(
            paths@,
        ) ==> (r matches Ok(out) && paths_canonical_of(out@, paths@)),
{
    let n = paths.len();
    let mut canon: Vec<EncryptionPathFact> = Vec::new();
    let mut i: usize = 0;
    while i < n
        invariant
            n == paths@.len(),
            i <= n,
            canon@.len() == i,
            forall|q: int| 0 <= q < i ==> keys_distinct((#[trigger] paths@[q]).allowed_ips@),
            forall|q: int| 0 <= q < i ==> path_canonical_of(#[trigger] canon@[q], paths@[q]),
        decreases n - i,
    {
        let p = &paths[i];
        let allowed = match sort_unique_by_key(copy_vec(&p.allowed_ips)) {
            Some(v) => v,
            None => {
                return Err(EncryptionContractError::InvalidPath(DUPLICATE_ALLOWED_IPS));
            },
        };
        canon.push(
            EncryptionPathFact {
                source_node_uid: p.source_node_uid.clone(),
                destination_node_uid: p.destination_node_uid.clone(),
                epoch: p.epoch,
                path_class: p.path_class,
                peer_endpoint: p.peer_endpoint,
                allowed_ips: allowed,
                interface_name: p.interface_name.clone(),
                route_table: p.route_table,
                fwmark: p.fwmark,
                mtu: p.mtu,
            },
        );
        i = i + 1;
    }
    let ghost c = canon@;
    proof {
        assert forall|a: int, b: int| 0 <= a < b < c.len() implies (key_eq(#[trigger] c[a], #[trigger] c[b]) == key_eq(
            paths@[a],
            paths@[b],
        )) by {
            assert(path_canonical_of(c[a], paths@[a]));
            assert(path_canonical_of(c[b], paths@[b]));
        }
        if keys_distinct(paths@) {
            assert(keys_distinct(c));
        }
        if keys_distinct(c) {
            assert forall|a: int, b: int| 0 <= a < b < c.len() implies !key_eq(#[trigger] paths@[a], #[trigger] paths@[b]) by {
                assert(!key_eq(c[a], c[b]));
            }
        }
    }
    let sorted = match sort_unique_by_key(canon) {
        Some(v) => v,
        None => {
            return Err(EncryptionContractError::InvalidPath(DUPLICATE_DIRECTIONAL_PATH));
        },
    };
    proof {
        reveal(path_drawn_from);
        reveal(path_kept_in);
        assert forall|q: int| 0 <= q < sorted@.len() implies path_drawn_from(#[trigger] sorted@[q], paths@) by {
            assert(sorted@.contains(sorted@[q]));
            vstd::seq_lib::to_multiset_contains(sorted@, sorted@[q]);
            vstd::seq_lib::to_multiset_contains(c, sorted@[q]);
            let j = choose|j: int| 0 <= j < c.len() && c[j] == sorted@[q];
            assert(path_canonical_of(c[j], paths@[j]));
        }
        assert forall|j: int| 0 <= j < paths@.len() implies path_kept_in(#[trigger] paths@[j], sorted@) by {
            assert(c.contains(c[j]));
            vstd::seq_lib::to_multiset_contains(c, c[j]);
            vstd::seq_lib::to_multiset_contains(sorted@, c[j]);
            let q = choose|q: int| 0 <= q < sorted@.len() && sorted@[q] == c[j];
            assert(path_canonical_of(c[j], paths@[j]));
        }
        vstd::seq_lib::to_multiset_len(sorted@);
        vstd::seq_lib::to_multiset_len(c);
    }
    Ok(sorted)
}

} // verus!

verus! {

#[derive(Clone, Debug)]
pub struct EncryptionKeyBinding {
    pub node_uid: String,
    pub epoch: u64,
    pub public_key: WireGuardPublicKey,
    pub public_key_digest: EncryptionPublicKeyDigest,
    pub phase: EncryptionKeyPhase,
}

#[derive(Clone, Debug)]
pub struct EncryptionPolicyBinding {
    pub policy_ids: Vec<PolicyId>,
    pub revision: Revision,
}

#[derive(Clone, Debug)]
pub struct EncryptionTransportBinding {
    pub forward: EncryptionPathFact,
    pub reverse: EncryptionPathFact,
}

#[derive(Clone, Debug)]
pub struct AttestedEncryptionPathPlan {
    pub source: EncryptionEndpointFact,
    pub destination: EncryptionEndpointFact,
    pub disposition: crate::model::EncryptionDisposition,
    pub intent_uids: Vec<String>,
    pub policy: EncryptionPolicyBinding,
    pub source_key: EncryptionKeyBinding,
    pub destination_key: EncryptionKeyBinding,
    pub transport: EncryptionTransportBinding,
    pub revisions: EncryptionContractRevisions,
}

/// Every revision, the epoch and the lifetime start are nonzero, and the
/// lifetime is nonempty.
pub open spec fn revisions_and_lifetime_ok(
    facts: EncryptionContractFacts,
    contract_revision: Revision,
    valid_from_unix_ms: u64,
    valid_until_unix_ms: u64,
) -> bool {
    &&& contract_revision.0 != 0
    &&& facts.revisions.intent.0 != 0
    &&& facts.revisions.identity.0 != 0
    &&& facts.revisions.policy.0 != 0
    &&& facts.revisions.routing.0 != 0
    &&& facts.revisions.key.0 != 0
    &&& facts.active_epoch != 0
    &&& valid_from_unix_ms != 0
    &&& valid_from_unix_ms < valid_until_unix_ms
}

pub fn validate_revisions_and_lifetime(
    facts: &EncryptionContractFacts,
    contract_revision: Revision,
    valid_from_unix_ms: u64,
    valid_until_unix_ms: u64,
) -> (r: Result<(), EncryptionContractError>)
    ensures
        r is Ok <==> revisions_and_lifetime_ok(*facts, contract_revision, valid_from_unix_ms, valid_until_unix_ms),
        r is Err ==> r == Err::<(), EncryptionContractError>(EncryptionContractError::InvalidRevisionOrLifetime),
{
    let revisions = facts.revisions;
    if contract_revision.0 == 0 || revisions.intent.0 == 0 || revisions.identity.0 == 0
        || revisions.policy.0 == 0 || revisions.routing.0 == 0 || revisions.key.0 == 0
        || facts.active_epoch == 0 || valid_from_unix_ms == 0 || valid_from_unix_ms
        >= valid_until_unix_ms {
        return Err(EncryptionContractError::InvalidRevisionOrLifetime);
    }
    Ok(())
}

pub const MAX_ENCRYPTION_KEY_FACTS: usize = 8192;

pub const MAX_ENCRYPTION_PATH_FACTS: usize = 131072;

/// The first fact list over its bound, as the error that reports it.
pub open spec fn fact_bounds_error(facts: EncryptionContractFacts) -> Option<EncryptionContractError> {
    if facts.endpoints@.len() > crate::model::MAX_ENCRYPTION_ENDPOINTS {
        Some(
            EncryptionContractError::Capacity {
                kind: "endpoints",
                actual: facts.endpoints@.len() as usize,
                limit: crate::model::MAX_ENCRYPTION_ENDPOINTS,
            },
        )
    } else if facts.policies@.len() > crate::model::MAX_ENCRYPTION_PATHS {
        Some(
            EncryptionContractError::Capacity {
                kind: "policies",
                actual: facts.policies@.len() as usize,
                limit: crate::model::MAX_ENCRYPTION_PATHS,
            },
        )
    } else if facts.keys@.len() > MAX_ENCRYPTION_KEY_FACTS {
        Some(
            EncryptionContractError::Capacity {
                kind: "keys",
                actual: facts.keys@.len() as usize,
                limit: MAX_ENCRYPTION_KEY_FACTS,
            },
        )
    } else if facts.paths@.len() > MAX_ENCRYPTION_PATH_FACTS {
        Some(
            EncryptionContractError::Capacity {
                kind: "paths",
                actual: facts.paths@.len() as usize,
                limit: MAX_ENCRYPTION_PATH_FACTS,
            },
        )
    } else {
        None
    }
}

pub fn validate_fact_bounds(facts: &EncryptionContractFacts) -> (r: Result<(), EncryptionContractError>)
    ensures
        match fact_bounds_error(*facts) {
            Some(e) => r == Err::<(), EncryptionContractError>(e),
            None => r is Ok,
        },
{
    if facts.endpoints.len() > crate::model::MAX_ENCRYPTION_ENDPOINTS {
        return Err(
            EncryptionContractError::Capacity {
                kind: "endpoints",
                actual: facts.endpoints.len(),
                limit: crate::model::MAX_ENCRYPTION_ENDPOINTS,
            },
        );
    }
    if facts.policies.len() > crate::model::MAX_ENCRYPTION_PATHS {
        return Err(
            EncryptionContractError::Capacity {
                kind: "policies",
                actual: facts.policies.len(),
                limit: crate::model::MAX_ENCRYPTION_PATHS,
            },
        );
    }
    if facts.keys.len() > MAX_ENCRYPTION_KEY_FACTS {
        return Err(
            EncryptionContractError::Capacity {
                kind: "keys",
                actual: facts.keys.len(),
                limit: MAX_ENCRYPTION_KEY_FACTS,
            },
        );
    }
    if facts.paths.len() > MAX_ENCRYPTION_PATH_FACTS {
        return Err(
            EncryptionContractError::Capacity {
                kind: "paths",
                actual: facts.paths.len(),
                limit: MAX_ENCRYPTION_PATH_FACTS,
            },
        );
    }
    Ok(())
}

/// Key fact `i` is the one and only fact for the Node and epoch.
pub open spec fn unique_key_at(keys: Seq<EncryptionKeyFact>, node_uid: Seq<char>, epoch: u64, i: int) -> bool {
    &&& 0 <= i < keys.len()
    &&& keys[i].node_uid@ == node_uid
    &&& keys[i].epoch == epoch
    &&& forall|j: int| 0 <= j < keys.len() && j != i ==> !((#[trigger] keys[j]).node_uid@ == node_uid && keys[j].epoch == epoch)
}

pub open spec fn has_unique_key(keys: Seq<EncryptionKeyFact>, node_uid: Seq<char>, epoch: u64) -> bool {
    exists|i: int| unique_key_at(keys, node_uid, epoch, i)
}

pub open spec fn unique_key(keys: Seq<EncryptionKeyFact>, node_uid: Seq<char>, epoch: u64) -> EncryptionKeyFact {
    keys[choose|i: int| unique_key_at(keys, node_uid, epoch, i)]
}

/// What `key_binding` rejects.
pub open spec fn key_error(
    keys: Seq<EncryptionKeyFact>,
    node_uid: Seq<char>,
    epoch: u64,
    valid_from_unix_ms: u64,
    valid_until_unix_ms: u64,
) -> Option<EncryptionContractError> {
    if !has_unique_key(keys, node_uid, epoch) {
        Some(EncryptionContractError::MissingKey)
    } else if unique_key(keys, node_uid, epoch).valid_from_unix_ms > valid_from_unix_ms || unique_key(
        keys,
        node_uid,
        epoch,
    ).valid_until_unix_ms < valid_until_unix_ms {
        Some(EncryptionContractError::InvalidKey)
    } else {
        None
    }
}

/// `b` binds key fact `k` at `epoch`.
pub open spec fn key_bound(b: EncryptionKeyBinding, k: EncryptionKeyFact, epoch: u64) -> bool {
    &&& b.node_uid@ == k.node_uid@
    &&& b.epoch == epoch
    &&& b.public_key == k.public_key
    &&& b.public_key_digest.0@ == crate::keys::public_key_digest_spec(k.public_key.0@)
    &&& b.phase == k.phase
}

/// Binds the one key fact of `node` at `epoch` that covers the lifetime.
pub fn key_binding(
    keys: &Vec<EncryptionKeyFact>,
    node: &EncryptionNode,
    epoch: u64,
    valid_from_unix_ms: u64,
    valid_until_unix_ms: u64,
) -> (r: Result<EncryptionKeyBinding, EncryptionContractError>)
    ensures
        match key_error(keys@, node.uid@, epoch, valid_from_unix_ms, valid_until_unix_ms) {
            Some(e) => r == Err::<EncryptionKeyBinding, EncryptionContractError>(e),
            None => r matches Ok(b) && key_bound(b, unique_key(keys@, node.uid@, epoch), epoch),
        },
{
    let mut count: usize = 0;
    let mut found: usize = 0;
    let mut i: usize = 0;
    while i < keys.len()
        invariant
            i <= keys@.len(),
            count <= i,
            count == 0 ==> forall|j: int| 0 <= j < i ==> !((#[trigger] keys@[j]).node_uid@ == node.uid@ && keys@[j].epoch == epoch),
            count == 1 ==> found < i && keys@[found as int].node_uid@ == node.uid@ && keys@[found as int].epoch == epoch
                && forall|j: int| 0 <= j < i && j != found ==> !((#[trigger] keys@[j]).node_uid@ == node.uid@ && keys@[j].epoch == epoch),
            count >= 2 ==> exists|a: int, b: int| 0 <= a < b < i && (#[trigger] keys@[a]).node_uid@ == node.uid@ && keys@[a].epoch == epoch
                && (#[trigger] keys@[b]).node_uid@ == node.uid@ && keys@[b].epoch == epoch,
        decreases keys@.len() - i,
    {
        if keys[i].epoch == epoch && text_eq(keys[i].node_uid.as_str(), node.uid.as_str()) {
            if count == 0 {
                found = i;
            }
            if count < 2 {
                count = count + 1;
            }
        }
        i = i + 1;
    }
    if count != 1 {
        proof {
            if has_unique_key(keys@, node.uid@, epoch) {
                let u = choose|u: int| unique_key_at(keys@, node.uid@, epoch, u);
                if count >= 2 {
                    let (a, b) = choose|a: int, b: int| 0 <= a < b < i && (#[trigger] keys@[a]).node_uid@ == node.uid@ && keys@[a].epoch == epoch
                        && (#[trigger] keys@[b]).node_uid@ == node.uid@ && keys@[b].epoch == epoch;
                    assert(a == u || b == u);
                }
            }
        }
        return Err(EncryptionContractError::MissingKey);
    }
    proof {
        assert(unique_key_at(keys@, node.uid@, epoch, found as int));
        let u = choose|u: int| unique_key_at(keys@, node.uid@, epoch, u);
        assert(u == found);
    }
    let key = &keys[found];
    if key.valid_from_unix_ms > valid_from_unix_ms || key.valid_until_unix_ms < valid_until_unix_ms {
        return Err(EncryptionContractError::InvalidKey);
    }
    Ok(
        EncryptionKeyBinding {
            node_uid: key.node_uid.clone(),
            epoch,
            public_key: key.public_key,
            public_key_digest: crate::keys::public_key_digest(key.public_key),
            phase: key.phase,
        },
    )
}

/// Path fact `i` is the one and only fact for the direction and epoch.
pub open spec fn unique_path_at(paths: Seq<EncryptionPathFact>, source: Seq<char>, destination: Seq<char>, epoch: u64, i: int) -> bool {
    &&& 0 <= i < paths.len()
    &&& paths[i].source_node_uid@ == source
    &&& paths[i].destination_node_uid@ == destination
    &&& paths[i].epoch == epoch
    &&& forall|j: int|
        0 <= j < paths.len() && j != i ==> !((#[trigger] paths[j]).source_node_uid@ == source
            && paths[j].destination_node_uid@ == destination && paths[j].epoch == epoch)
}

pub open spec fn has_unique_path(paths: Seq<EncryptionPathFact>, source: Seq<char>, destination: Seq<char>, epoch: u64) -> bool {
    exists|i: int| unique_path_at(paths, source, destination, epoch, i)
}

pub open spec fn unique_path(paths: Seq<EncryptionPathFact>, source: Seq<char>, destination: Seq<char>, epoch: u64) -> EncryptionPathFact {
    paths[choose|i: int| unique_path_at(paths, source, destination, epoch, i)]
}

/// Field-wise equality of two path facts.
pub open spec fn path_same(a: EncryptionPathFact, b: EncryptionPathFact) -> bool {
    &&& a.source_node_uid@ == b.source_node_uid@
    &&& a.destination_node_uid@ == b.destination_node_uid@
    &&& a.epoch == b.epoch
    &&& a.path_class == b.path_class
    &&& a.peer_endpoint == b.peer_endpoint
    &&& a.allowed_ips@ == b.allowed_ips@
    &&& a.interface_name@ == b.interface_name@
    &&& a.route_table == b.route_table
    &&& a.fwmark == b.fwmark
    &&& a.mtu == b.mtu
}

impl EncryptionPathFact {
    pub fn duplicate(&self) -> (r: Self)
        ensures
            path_same(r, *self),
    {
        EncryptionPathFact {
            source_node_uid: self.source_node_uid.clone(),
            destination_node_uid: self.destination_node_uid.clone(),
            epoch: self.epoch,
            path_class: self.path_class,
            peer_endpoint: self.peer_endpoint,
            allowed_ips: copy_vec(&self.allowed_ips),
            interface_name: self.interface_name.clone(),
            route_table: self.route_table,
            fwmark: self.fwmark,
            mtu: self.mtu,
        }
    }
}

/// The one path fact for a direction and epoch.
pub fn directional_path(
    paths: &Vec<EncryptionPathFact>,
    source_node_uid: &str,
    destination_node_uid: &str,
    epoch: u64,
) -> (r: Result<EncryptionPathFact, EncryptionContractError>)
    ensures
        r is Ok <==> has_unique_path(paths@, source_node_uid@, destination_node_uid@, epoch),
        r is Err ==> r == Err::<EncryptionPathFact, EncryptionContractError>(EncryptionContractError::MissingPath),
        r matches Ok(p) ==> path_same(p, unique_path(paths@, source_node_uid@, destination_node_uid@, epoch)),
{
    let mut count: usize = 0;
    let mut found: usize = 0;
    let mut i: usize = 0;
    while i < paths.len()
        invariant
            i <= paths@.len(),
            count <= i,
            count == 0 ==> forall|j: int|
                0 <= j < i ==> !((#[trigger] paths@[j]).source_node_uid@ == source_node_uid@
                    && paths@[j].destination_node_uid@ == destination_node_uid@ && paths@[j].epoch == epoch),
            count == 1 ==> found < i && paths@[found as int].source_node_uid@ == source_node_uid@
                && paths@[found as int].destination_node_uid@ == destination_node_uid@ && paths@[found as int].epoch == epoch
                && forall|j: int|
                0 <= j < i && j != found ==> !((#[trigger] paths@[j]).source_node_uid@ == source_node_uid@
                    && paths@[j].destination_node_uid@ == destination_node_uid@ && paths@[j].epoch == epoch),
            count >= 2 ==> exists|a: int, b: int|
                0 <= a < b < i && (#[trigger] paths@[a]).source_node_uid@ == source_node_uid@
                    && paths@[a].destination_node_uid@ == destination_node_uid@ && paths@[a].epoch == epoch
                    && (#[trigger] paths@[b]).source_node_uid@ == source_node_uid@
                    && paths@[b].destination_node_uid@ == destination_node_uid@ && paths@[b].epoch == epoch,
        decreases paths@.len() - i,
    {
        if paths[i].epoch == epoch && text_eq(paths[i].source_node_uid.as_str(), source_node_uid)
            && text_eq(paths[i].destination_node_uid.as_str(), destination_node_uid) {
            if count == 0 {
                found = i;
            }
            if count < 2 {
                count = count + 1;
            }
        }
        i = i + 1;
    }
    if count != 1 {
        proof {
            if has_unique_path(paths@, source_node_uid@, destination_node_uid@, epoch) {
                let u = choose|u: int| unique_path_at(paths@, source_node_uid@, destination_node_uid@, epoch, u);
                if count >= 2 {
                    let (a, b) = choose|a: int, b: int|
                        0 <= a < b < i && (#[trigger] paths@[a]).source_node_uid@ == source_node_uid@
                            && paths@[a].destination_node_uid@ == destination_node_uid@ && paths@[a].epoch == epoch
                            && (#[trigger] paths@[b]).source_node_uid@ == source_node_uid@
                            && paths@[b].destination_node_uid@ == destination_node_uid@ && paths@[b].epoch == epoch;
                    assert(a == u || b == u);
                }
            }
        }
        return Err(EncryptionContractError::MissingPath);
    }
    proof {
        assert(unique_path_at(paths@, source_node_uid@, destination_node_uid@, epoch, found as int));
        let u = choose|u: int| unique_path_at(paths@, source_node_uid@, destination_node_uid@, epoch, u);
        assert(u == found);
    }
    Ok(paths[found].duplicate())
}

pub const NODE_IDENTITY_MISMATCH: &'static str = "Node identity mismatch";

pub const PATH_ATTRIBUTE_MISMATCH: &'static str = "endpoint, AllowedIPs, interface, route, mark, or MTU mismatch";

/// What `validate_path` rejects for a path from `source` to `destination`.
pub open spec fn path_error(p: EncryptionPathFact, source: EncryptionNode, destination: EncryptionNode) -> Option<
    EncryptionContractError,
> {
    if p.source_node_uid@ != source.uid@ || p.destination_node_uid@ != destination.uid@ {
        Some(EncryptionContractError::InvalidPath(NODE_IDENTITY_MISMATCH))
    } else if p.path_class != EncryptionPathClass::ManagedPod || p.epoch == 0 || p.peer_endpoint.port == 0
        || !destination.underlay_addresses@.contains(p.peer_endpoint.ip) || p.allowed_ips@
        != destination.pod_cidrs@ || !crate::model::interface_name_ok(vstd::utf8::encode_utf8(p.interface_name@))
        || p.route_table == 0 || p.fwmark == 0 || p.mtu < crate::model::MIN_DUAL_STACK_ENCRYPTION_MTU || p.mtu
        > crate::model::MAX_ENCRYPTION_MTU {
        Some(EncryptionContractError::InvalidPath(PATH_ATTRIBUTE_MISMATCH))
    } else {
        None
    }
}

fn address_listed(v: &Vec<IpAddr>, a: IpAddr) -> (r: bool)
    ensures
        r == v@.contains(a),
{
    let mut found = false;
    let mut i: usize = 0;
    while i < v.len()
        invariant
            i <= v@.len(),
            found == exists|j: int| 0 <= j < i && v@[j] == a,
        decreases v@.len() - i,
    {
        if v[i] == a {
            found = true;
        }
        i = i + 1;
    }
    found
}

fn prefixes_equal(a: &Vec<IpPrefix>, b: &Vec<IpPrefix>) -> (r: bool)
    ensures
        r == (a@ == b@),
{
    if a.len() != b.len() {
        return false;
    }
    let mut same = true;
    let mut i: usize = 0;
    while i < a.len()
        invariant
            a@.len() == b@.len(),
            i <= a@.len(),
            same == forall|j: int| 0 <= j < i ==> a@[j] == b@[j],
        decreases a@.len() - i,
    {
        if a[i] != b[i] {
            same = false;
        }
        i = i + 1;
    }
    proof {
        if same {
            assert(a@ =~= b@);
        }
    }
    same
}

/// Checks one directional path against the Nodes it joins.
pub fn validate_path(path: &EncryptionPathFact, source: &EncryptionNode, destination: &EncryptionNode) -> (r: Result<
    (),
    EncryptionContractError,
>)
    ensures
        match path_error(*path, *source, *destination) {
            Some(e) => r == Err::<(), EncryptionContractError>(e),
            None => r is Ok,
        },
{
    if !text_eq(path.source_node_uid.as_str(), source.uid.as_str()) || !text_eq(
        path.destination_node_uid.as_str(),
        destination.uid.as_str(),
    ) {
        return Err(EncryptionContractError::InvalidPath(NODE_IDENTITY_MISMATCH));
    }
    if path.path_class != EncryptionPathClass::ManagedPod || path.epoch == 0 || path.peer_endpoint.port == 0
        || !address_listed(&destination.underlay_addresses, path.peer_endpoint.ip) || !prefixes_equal(
        &path.allowed_ips,
        &destination.pod_cidrs,
    ) || !crate::model::valid_interface_name(path.interface_name.as_str()) || path.route_table == 0
        || path.fwmark == 0 || path.mtu < crate::model::MIN_DUAL_STACK_ENCRYPTION_MTU || path.mtu
        > crate::model::MAX_ENCRYPTION_MTU {
        return Err(EncryptionContractError::InvalidPath(PATH_ATTRIBUTE_MISMATCH));
    }
    Ok(())
}

} // verus!

verus! {

/// The inputs every plan of one contract is compiled from.
pub struct ContractCompileContext<'a> {
    pub model: &'a crate::model::EncryptionModel,
    pub revisions: EncryptionContractRevisions,
    pub active_epoch: u64,
    pub policies: &'a Vec<EncryptionPolicyFact>,
    pub keys: &'a Vec<EncryptionKeyFact>,
    pub paths: &'a Vec<EncryptionPathFact>,
    pub valid_from_unix_ms: u64,
    pub valid_until_unix_ms: u64,
}

/// The plan inputs as values.
pub struct PlanInputs {
    pub model: crate::model::EncryptionModel,
    pub revisions: EncryptionContractRevisions,
    pub active_epoch: u64,
    pub policies: Seq<EncryptionPolicyFact>,
    pub keys: Seq<EncryptionKeyFact>,
    pub paths: Seq<EncryptionPathFact>,
    pub valid_from_unix_ms: u64,
    pub valid_until_unix_ms: u64,
}

pub open spec fn inputs_of(ctx: ContractCompileContext) -> PlanInputs {
    PlanInputs {
        model: *ctx.model,
        revisions: ctx.revisions,
        active_epoch: ctx.active_epoch,
        policies: ctx.policies@,
        keys: ctx.keys@,
        paths: ctx.paths@,
        valid_from_unix_ms: ctx.valid_from_unix_ms,
        valid_until_unix_ms: ctx.valid_until_unix_ms,
    }
}

/// Field-wise equality of two endpoint facts.
pub open spec fn endpoint_same(a: EncryptionEndpointFact, b: EncryptionEndpointFact) -> bool {
    &&& a.identity == b.identity
    &&& a.workload_uid@ == b.workload_uid@
    &&& node_same(a.node, b.node)
}

impl EncryptionEndpointFact {
    pub fn duplicate(&self) -> (r: Self)
        ensures
            endpoint_same(r, *self),
    {
        EncryptionEndpointFact {
            identity: self.identity,
            workload_uid: self.workload_uid.clone(),
            node: self.node.duplicate(),
        }
    }
}

/// The model requires encryption from `s` to `d`.
pub open spec fn pair_required(model: crate::model::EncryptionModel, s: IdentityId, d: IdentityId) -> bool {
    model.baseline == crate::model::EncryptionBaseline::Required || crate::model::selected_uids(
        model.intents@,
        s,
        d,
    ).len() > 0
}

/// Policy fact `i` is the one and only fact for the identity pair.
pub open spec fn unique_policy_at(policies: Seq<EncryptionPolicyFact>, s: IdentityId, d: IdentityId, i: int) -> bool {
    &&& 0 <= i < policies.len()
    &&& policies[i].source == s
    &&& policies[i].destination == d
    &&& forall|j: int| 0 <= j < policies.len() && j != i ==> !((#[trigger] policies[j]).source == s && policies[j].destination == d)
}

pub open spec fn has_unique_policy(policies: Seq<EncryptionPolicyFact>, s: IdentityId, d: IdentityId) -> bool {
    exists|i: int| unique_policy_at(policies, s, d, i)
}

pub open spec fn unique_policy(policies: Seq<EncryptionPolicyFact>, s: IdentityId, d: IdentityId) -> EncryptionPolicyFact {
    policies[choose|i: int| unique_policy_at(policies, s, d, i)]
}

/// What `compile_plan` rejects the pair for, in the order it checks.
pub open spec fn plan_error(ctx: PlanInputs, s: EncryptionEndpointFact, d: EncryptionEndpointFact) -> Option<
    EncryptionContractError,
> {
    let policies = ctx.policies;
    let keys = ctx.keys;
    let paths = ctx.paths;
    let epoch = ctx.active_epoch;
    if !pair_required(ctx.model, s.identity, d.identity) {
        None
    } else if !has_unique_policy(policies, s.identity, d.identity) {
        Some(EncryptionContractError::MissingPolicy)
    } else if !unique_policy(policies, s.identity, d.identity).allowed {
        None
    } else if unique_policy(policies, s.identity, d.identity).policy_ids@.len() == 0 {
        Some(EncryptionContractError::InvalidPolicy)
    } else if key_error(keys, s.node.uid@, epoch, ctx.valid_from_unix_ms, ctx.valid_until_unix_ms) is Some {
        key_error(keys, s.node.uid@, epoch, ctx.valid_from_unix_ms, ctx.valid_until_unix_ms)
    } else if key_error(keys, d.node.uid@, epoch, ctx.valid_from_unix_ms, ctx.valid_until_unix_ms) is Some {
        key_error(keys, d.node.uid@, epoch, ctx.valid_from_unix_ms, ctx.valid_until_unix_ms)
    } else if !has_unique_path(paths, s.node.uid@, d.node.uid@, epoch) || !has_unique_path(
        paths,
        d.node.uid@,
        s.node.uid@,
        epoch,
    ) {
        Some(EncryptionContractError::MissingPath)
    } else if path_error(unique_path(paths, s.node.uid@, d.node.uid@, epoch), s.node, d.node) is Some {
        path_error(unique_path(paths, s.node.uid@, d.node.uid@, epoch), s.node, d.node)
    } else if path_error(unique_path(paths, d.node.uid@, s.node.uid@, epoch), d.node, s.node) is Some {
        path_error(unique_path(paths, d.node.uid@, s.node.uid@, epoch), d.node, s.node)
    } else {
        None
    }
}

/// The pair gets a plan: encryption is required and the one policy fact
/// for the pair allows the traffic.
pub open spec fn plan_wanted(ctx: PlanInputs, s: EncryptionEndpointFact, d: EncryptionEndpointFact) -> bool {
    &&& pair_required(ctx.model, s.identity, d.identity)
    &&& has_unique_policy(ctx.policies, s.identity, d.identity)
    &&& unique_policy(ctx.policies, s.identity, d.identity).allowed
}

/// `pl` is the plan compiled for the pair from `s` to `d`.
pub open spec fn plan_built(
    pl: AttestedEncryptionPathPlan,
    ctx: PlanInputs,
    s: EncryptionEndpointFact,
    d: EncryptionEndpointFact,
) -> bool {
    let epoch = ctx.active_epoch;
    let paths = ctx.paths;
    &&& endpoint_same(pl.source, s)
    &&& endpoint_same(pl.destination, d)
    &&& pl.disposition == crate::model::EncryptionDisposition::Required
    &&& crate::text::texts_view(pl.intent_uids@) == crate::model::selected_uids(ctx.model.intents@, s.identity, d.identity)
    &&& pl.policy.policy_ids@ == unique_policy(ctx.policies, s.identity, d.identity).policy_ids@
    &&& pl.policy.revision == ctx.revisions.policy
    &&& key_bound(pl.source_key, unique_key(ctx.keys, s.node.uid@, epoch), epoch)
    &&& key_bound(pl.destination_key, unique_key(ctx.keys, d.node.uid@, epoch), epoch)
    &&& path_same(pl.transport.forward, unique_path(paths, s.node.uid@, d.node.uid@, epoch))
    &&& path_same(pl.transport.reverse, unique_path(paths, d.node.uid@, s.node.uid@, epoch))
    &&& pl.revisions == ctx.revisions
}

fn find_policy(policies: &Vec<EncryptionPolicyFact>, s: IdentityId, d: IdentityId) -> (r: Option<usize>)
    ensures
        match r {
            Some(i) => unique_policy_at(policies@, s, d, i as int),
            None => !has_unique_policy(policies@, s, d),
        },
{
    let mut count: usize = 0;
    let mut found: usize = 0;
    let mut i: usize = 0;
    while i < policies.len()
        invariant
            i <= policies@.len(),
            count <= i,
            count == 0 ==> forall|j: int| 0 <= j < i ==> !((#[trigger] policies@[j]).source == s && policies@[j].destination == d),
            count == 1 ==> found < i && policies@[found as int].source == s && policies@[found as int].destination == d
                && forall|j: int| 0 <= j < i && j != found ==> !((#[trigger] policies@[j]).source == s && policies@[j].destination == d),
            count >= 2 ==> exists|a: int, b: int| 0 <= a < b < i && (#[trigger] policies@[a]).source == s && policies@[a].destination == d
                && (#[trigger] policies@[b]).source == s && policies@[b].destination == d,
        decreases policies@.len() - i,
    {
        if policies[i].source.0 == s.0 && policies[i].destination.0 == d.0 {
            if count == 0 {
                found = i;
            }
            if count < 2 {
                count = count + 1;
            }
        }
        i = i + 1;
    }
    if count != 1 {
        proof {
            if has_unique_policy(policies@, s, d) {
                let u = choose|u: int| unique_policy_at(policies@, s, d, u);
                if count >= 2 {
                    let (a, b) = choose|a: int, b: int| 0 <= a < b < i && (#[trigger] policies@[a]).source == s && policies@[a].destination == d
                        && (#[trigger] policies@[b]).source == s && policies@[b].destination == d;
                    assert(a == u || b == u);
                }
            }
        }
        return None;
    }
    Some(found)
}

/// Compiles the plan for one ordered endpoint pair, or none where encryption
/// is not required or policy denies the traffic.
pub fn compile_plan(ctx: &ContractCompileContext, source: &EncryptionEndpointFact, destination: &EncryptionEndpointFact) -> (r:
    Result<Option<AttestedEncryptionPathPlan>, EncryptionContractError>)
    ensures
        match plan_error(inputs_of(*ctx), *source, *destination) {
            Some(e) => r == Err::<Option<AttestedEncryptionPathPlan>, EncryptionContractError>(e),
            None => if plan_wanted(inputs_of(*ctx), *source, *destination) {
                r matches Ok(Some(pl)) && plan_built(pl, inputs_of(*ctx), *source, *destination)
            } else {
                r == Ok::<Option<AttestedEncryptionPathPlan>, EncryptionContractError>(None)
            },
        },
{
    let requirement = ctx.model.requirement(source.identity, destination.identity);
    if requirement.disposition == crate::model::EncryptionDisposition::Native {
        return Ok(None);
    }
    let index = match find_policy(ctx.policies, source.identity, destination.identity) {
        Some(i) => i,
        None => {
            return Err(EncryptionContractError::MissingPolicy);
        },
    };
    proof {
        let u = choose|u: int| unique_policy_at(ctx.policies@, source.identity, destination.identity, u);
        assert(u == index);
    }
    let policy = &ctx.policies[index];
    if !policy.allowed {
        return Ok(None);
    }
    if policy.policy_ids.len() == 0 {
        return Err(EncryptionContractError::InvalidPolicy);
    }
    let source_key = key_binding(
        ctx.keys,
        &source.node,
        ctx.active_epoch,
        ctx.valid_from_unix_ms,
        ctx.valid_until_unix_ms,
    )?;
    let destination_key = key_binding(
        ctx.keys,
        &destination.node,
        ctx.active_epoch,
        ctx.valid_from_unix_ms,
        ctx.valid_until_unix_ms,
    )?;
    let forward = directional_path(ctx.paths, source.node.uid.as_str(), destination.node.uid.as_str(), ctx.active_epoch)?;
    let reverse = directional_path(ctx.paths, destination.node.uid.as_str(), source.node.uid.as_str(), ctx.active_epoch)?;
    validate_path(&forward, &source.node, &destination.node)?;
    validate_path(&reverse, &destination.node, &source.node)?;
    Ok(
        Some(
            AttestedEncryptionPathPlan {
                source: source.duplicate(),
                destination: destination.duplicate(),
                disposition: crate::model::EncryptionDisposition::Required,
                intent_uids: requirement.intent_uids,
                policy: EncryptionPolicyBinding {
                    policy_ids: copy_vec(&policy.policy_ids),
                    revision: ctx.revisions.policy,
                },
                source_key,
                destination_key,
                transport: EncryptionTransportBinding { forward, reverse },
                revisions: ctx.revisions,
            },
        ),
    )
}

} // verus!

verus! {

/// Plans are ordered by source identity and workload UID, then destination
/// identity and workload UID.
impl Keyed for AttestedEncryptionPathPlan {
    open spec fn key_lt(self, other: Self) -> bool {
        ||| self.source.identity.0 < other.source.identity.0
        ||| self.source.identity.0 == other.source.identity.0 && text_lt(
            self.source.workload_uid@,
            other.source.workload_uid@,
        )
        ||| self.source.identity.0 == other.source.identity.0 && self.source.workload_uid@
            == other.source.workload_uid@ && self.destination.identity.0 < other.destination.identity.0
        ||| self.source.identity.0 == other.source.identity.0 && self.source.workload_uid@
            == other.source.workload_uid@ && self.destination.identity.0 == other.destination.identity.0
            && text_lt(self.destination.workload_uid@, other.destination.workload_uid@)
    }

    proof fn lemma_key_order(a: Self, b: Self, c: Self) {
        lemma_text_key(a.source.workload_uid@, b.source.workload_uid@, c.source.workload_uid@);
        lemma_text_key(b.source.workload_uid@, a.source.workload_uid@, c.source.workload_uid@);
        lemma_text_key(a.source.workload_uid@, c.source.workload_uid@, b.source.workload_uid@);
        lemma_text_key(a.destination.workload_uid@, b.destination.workload_uid@, c.destination.workload_uid@);
        lemma_text_key(b.destination.workload_uid@, a.destination.workload_uid@, c.destination.workload_uid@);
        lemma_text_key(a.destination.workload_uid@, c.destination.workload_uid@, b.destination.workload_uid@);
    }

    fn key_less(&self, other: &Self) -> (r: bool) {
        proof {
            lemma_text_key(self.source.workload_uid@, other.source.workload_uid@, other.source.workload_uid@);
        }
        if self.source.identity.0 != other.source.identity.0 {
            return self.source.identity.0 < other.source.identity.0;
        }
        if !text_eq(self.source.workload_uid.as_str(), other.source.workload_uid.as_str()) {
            return text_less(self.source.workload_uid.as_str(), other.source.workload_uid.as_str());
        }
        if self.destination.identity.0 != other.destination.identity.0 {
            return self.destination.identity.0 < other.destination.identity.0;
        }
        text_less(self.destination.workload_uid.as_str(), other.destination.workload_uid.as_str())
    }
}

/// Two plans to different destination Nodes claim overlapping AllowedIPs.
pub open spec fn plans_conflict(p: AttestedEncryptionPathPlan, q: AttestedEncryptionPathPlan) -> bool {
    &&& p.destination.node.uid@ != q.destination.node.uid@
    &&& exists|a: int, b: int|
        0 <= a < p.transport.forward.allowed_ips@.len() && 0 <= b < q.transport.forward.allowed_ips@.len()
            && prefixes_overlap(
            #[trigger] p.transport.forward.allowed_ips@[a],
            #[trigger] q.transport.forward.allowed_ips@[b],
        )
}

/// No two plans to different destination Nodes claim overlapping
/// AllowedIPs.
pub open spec fn allowed_ips_disjoint(plans: Seq<AttestedEncryptionPathPlan>) -> bool {
    forall|p: AttestedEncryptionPathPlan, q: AttestedEncryptionPathPlan|
        plans.contains(p) && plans.contains(q) ==> !#[trigger] plans_conflict(p, q)
}

fn plan_pair_conflicts(p: &AttestedEncryptionPathPlan, q: &AttestedEncryptionPathPlan) -> (r: bool)
    ensures
        r == plans_conflict(*p, *q),
{
    if text_eq(p.destination.node.uid.as_str(), q.destination.node.uid.as_str()) {
        return false;
    }
    let xs = &p.transport.forward.allowed_ips;
    let ys = &q.transport.forward.allowed_ips;
    let mut found = false;
    let mut a: usize = 0;
    while a < xs.len()
        invariant
            a <= xs@.len(),
            *xs == p.transport.forward.allowed_ips,
            *ys == q.transport.forward.allowed_ips,
            found == exists|i: int, j: int| 0 <= i < a && 0 <= j < ys@.len() && prefixes_overlap(#[trigger] xs@[i], #[trigger] ys@[j]),
        decreases xs@.len() - a,
    {
        let mut b: usize = 0;
        while b < ys.len()
            invariant
                a < xs@.len(),
                b <= ys@.len(),
                *xs == p.transport.forward.allowed_ips,
                *ys == q.transport.forward.allowed_ips,
                found == ((exists|i: int, j: int| 0 <= i < a && 0 <= j < ys@.len() && prefixes_overlap(#[trigger] xs@[i], #[trigger] ys@[j]))
                    || (exists|j: int| 0 <= j < b && prefixes_overlap(xs@[a as int], #[trigger] ys@[j]))),
            decreases ys@.len() - b,
        {
            if xs[a].overlaps(ys[b]) {
                found = true;
            }
            b = b + 1;
        }
        proof {
            if exists|j: int| 0 <= j < ys@.len() && prefixes_overlap(xs@[a as int], #[trigger] ys@[j]) {
                let j = choose|j: int| 0 <= j < ys@.len() && prefixes_overlap(xs@[a as int], #[trigger] ys@[j]);
                assert(prefixes_overlap(xs@[a as int], ys@[j]));
            }
            if !found {
                assert forall|i: int, j: int| 0 <= i < a + 1 && 0 <= j < ys@.len() implies !prefixes_overlap(
                    #[trigger] xs@[i],
                    #[trigger] ys@[j],
                ) by {
                    if i == a {
                        assert(b == ys@.len());
                        assert(!prefixes_overlap(xs@[a as int], ys@[j]));
                    }
                }
            }
        }
        a = a + 1;
    }
    found
}

/// Rejects plans that would route one prefix to two destination Nodes.
pub fn validate_disjoint_allowed_ips(plans: &Vec<AttestedEncryptionPathPlan>) -> (r: Result<(), EncryptionContractError>)
    ensures
        r is Ok <==> allowed_ips_disjoint(plans@),
        r is Err ==> r == Err::<(), EncryptionContractError>(EncryptionContractError::AmbiguousAllowedIp),
{
    let n = plans.len();
    let mut found = false;
    let mut i: usize = 0;
    while i < n
        invariant
            n == plans@.len(),
            i <= n,
            found == exists|a: int, b: int| 0 <= a < b < n && a < i && plans_conflict(#[trigger] plans@[a], #[trigger] plans@[b]),
        decreases n - i,
    {
        let mut j: usize = i + 1;
        while j < n
            invariant
                n == plans@.len(),
                i < n,
                i + 1 <= j <= n,
                found == ((exists|a: int, b: int| 0 <= a < b < n && a < i && plans_conflict(#[trigger] plans@[a], #[trigger] plans@[b]))
                    || (exists|b: int| i < b < j && plans_conflict(plans@[i as int], #[trigger] plans@[b]))),
            decreases n - j,
        {
            if plan_pair_conflicts(&plans[i], &plans[j]) {
                found = true;
            }
            j = j + 1;
        }
        proof {
            if exists|b: int| i < b < n && plans_conflict(plans@[i as int], #[trigger] plans@[b]) {
                let b = choose|b: int| i < b < n && plans_conflict(plans@[i as int], #[trigger] plans@[b]);
                assert(plans_conflict(plans@[i as int], plans@[b]));
            }
            if !found {
                assert forall|a: int, b: int| 0 <= a < b < n && a < i + 1 implies !plans_conflict(
                    #[trigger] plans@[a],
                    #[trigger] plans@[b],
                ) by {
                    if a == i {
                        assert(j == n);
                        assert(!plans_conflict(plans@[i as int], plans@[b]));
                    }
                }
            }
        }
        i = i + 1;
    }
    proof {
        if found {
            let (a, b) = choose|a: int, b: int| 0 <= a < b < n && plans_conflict(#[trigger] plans@[a], #[trigger] plans@[b]);
            assert(plans@.contains(plans@[a]) && plans@.contains(plans@[b]));
        } else {
            assert forall|p: AttestedEncryptionPathPlan, q: AttestedEncryptionPathPlan|
                plans@.contains(p) && plans@.contains(q) implies !#[trigger] plans_conflict(p, q) by {
                let a = choose|a: int| 0 <= a < n && plans@[a] == p;
                let b = choose|b: int| 0 <= b < n && plans@[b] == q;
                if plans_conflict(p, q) {
                    if a < b {
                        assert(plans_conflict(plans@[a], plans@[b]));
                    } else if b < a {
                        let (x, y) = choose|x: int, y: int|
                            0 <= x < p.transport.forward.allowed_ips@.len() && 0 <= y < q.transport.forward.allowed_ips@.len()
                                && prefixes_overlap(
                                #[trigger] p.transport.forward.allowed_ips@[x],
                                #[trigger] q.transport.forward.allowed_ips@[y],
                            );
                        assert(prefixes_overlap(q.transport.forward.allowed_ips@[y], p.transport.forward.allowed_ips@[x]));
                        assert(plans_conflict(plans@[b], plans@[a]));
                    }
                }
            }
        }
    }
    if found {
        Err(EncryptionContractError::AmbiguousAllowedIp)
    } else {
        Ok(())
    }
}

} // verus!

verus! {

/// An endpoint on the local Node itself: a plan source.
pub open spec fn is_plan_source(e: EncryptionEndpointFact, local: EncryptionNode) -> bool {
    node_same(e.node, local)
}

/// An endpoint on another Node: a plan destination.
pub open spec fn is_plan_destination(e: EncryptionEndpointFact, local: EncryptionNode) -> bool {
    e.node.uid@ != local.uid@
}

/// Source `i` paired with each of the first `n` endpoints that is a
/// destination, in order.
pub open spec fn row_index_pairs(eps: Seq<EncryptionEndpointFact>, local: EncryptionNode, i: int, n: nat) -> Seq<(int, int)>
    decreases n,
{
    if n == 0 {
        Seq::empty()
    } else {
        let rest = row_index_pairs(eps, local, i, (n - 1) as nat);
        if is_plan_destination(eps[n - 1], local) {
            rest.push((i, n - 1))
        } else {
            rest
        }
    }
}

/// The ordered (source, destination) index pairs of the first `n` endpoints
/// taken as sources.
pub open spec fn index_pairs(eps: Seq<EncryptionEndpointFact>, local: EncryptionNode, n: nat) -> Seq<(int, int)>
    decreases n,
{
    if n == 0 {
        Seq::empty()
    } else {
        let rest = index_pairs(eps, local, (n - 1) as nat);
        if is_plan_source(eps[n - 1], local) {
            rest + row_index_pairs(eps, local, n - 1, eps.len())
        } else {
            rest
        }
    }
}

/// Every (source, destination) pair the contract considers, in order.
pub open spec fn plan_pairs(eps: Seq<EncryptionEndpointFact>, local: EncryptionNode) -> Seq<(int, int)> {
    index_pairs(eps, local, eps.len())
}

/// The first pair whose plan is rejected, as its error.
pub open spec fn first_plan_error(ctx: PlanInputs, eps: Seq<EncryptionEndpointFact>, ps: Seq<(int, int)>) -> Option<
    EncryptionContractError,
>
    decreases ps.len(),
{
    if ps.len() == 0 {
        None
    } else if first_plan_error(ctx, eps, ps.drop_last()) is Some {
        first_plan_error(ctx, eps, ps.drop_last())
    } else {
        plan_error(ctx, eps[ps.last().0], eps[ps.last().1])
    }
}

/// How many of the pairs get a plan.
pub open spec fn wanted_count(ctx: PlanInputs, eps: Seq<EncryptionEndpointFact>, ps: Seq<(int, int)>) -> nat
    decreases ps.len(),
{
    if ps.len() == 0 {
        0
    } else if plan_wanted(ctx, eps[ps.last().0], eps[ps.last().1]) {
        wanted_count(ctx, eps, ps.drop_last()) + 1
    } else {
        wanted_count(ctx, eps, ps.drop_last())
    }
}

/// `out` holds, in pair order, the plan built for each pair that gets one.
pub open spec fn plans_built_for(
    out: Seq<AttestedEncryptionPathPlan>,
    ctx: PlanInputs,
    eps: Seq<EncryptionEndpointFact>,
    ps: Seq<(int, int)>,
) -> bool
    decreases ps.len(),
{
    if ps.len() == 0 {
        out.len() == 0
    } else if plan_wanted(ctx, eps[ps.last().0], eps[ps.last().1]) {
        &&& out.len() > 0
        &&& plans_built_for(out.drop_last(), ctx, eps, ps.drop_last())
        &&& plan_built(out.last(), ctx, eps[ps.last().0], eps[ps.last().1])
    } else {
        plans_built_for(out, ctx, eps, ps.drop_last())
    }
}

proof fn lemma_first_plan_error_prefix(ctx: PlanInputs, eps: Seq<EncryptionEndpointFact>, ps: Seq<(int, int)>, k: int)
    requires
        0 < k <= ps.len(),
        first_plan_error(ctx, eps, ps.take(k)) is Some,
    ensures
        first_plan_error(ctx, eps, ps) == first_plan_error(ctx, eps, ps.take(k)),
    decreases ps.len() - k,
{
    if k < ps.len() {
        assert(ps.take(k + 1).drop_last() =~= ps.take(k));
        lemma_first_plan_error_prefix(ctx, eps, ps, k + 1);
    } else {
        assert(ps.take(k) =~= ps);
    }
}

fn plan_index_pairs(endpoints: &Vec<EncryptionEndpointFact>, local: &EncryptionNode) -> (r: Vec<(usize, usize)>)
    ensures
        r@.len() == plan_pairs(endpoints@, *local).len(),
        forall|k: int| 0 <= k < r@.len() ==> {
            &&& (#[trigger] r@[k]).0 as int == plan_pairs(endpoints@, *local)[k].0
            &&& r@[k].1 as int == plan_pairs(endpoints@, *local)[k].1
            &&& r@[k].0 < endpoints@.len()
            &&& r@[k].1 < endpoints@.len()
        },
{
    let n = endpoints.len();
    let mut r: Vec<(usize, usize)> = Vec::new();
    let mut i: usize = 0;
    while i < n
        invariant
            n == endpoints@.len(),
            i <= n,
            r@.len() == index_pairs(endpoints@, *local, i as nat).len(),
            forall|k: int| 0 <= k < r@.len() ==> {
                &&& (#[trigger] r@[k]).0 as int == index_pairs(endpoints@, *local, i as nat)[k].0
                &&& r@[k].1 as int == index_pairs(endpoints@, *local, i as nat)[k].1
                &&& r@[k].0 < n
                &&& r@[k].1 < n
            },
        decreases n - i,
    {
        let ghost before = index_pairs(endpoints@, *local, i as nat);
        if node_equal(&endpoints[i].node, local) {
            let mut j: usize = 0;
            while j < n
                invariant
                    n == endpoints@.len(),
                    i < n,
                    j <= n,
                    before == index_pairs(endpoints@, *local, i as nat),
                    r@.len() == before.len() + row_index_pairs(endpoints@, *local, i as int, j as nat).len(),
                    forall|k: int| 0 <= k < r@.len() ==> {
                        &&& (#[trigger] r@[k]).0 as int == (before + row_index_pairs(endpoints@, *local, i as int, j as nat))[k].0
                        &&& r@[k].1 as int == (before + row_index_pairs(endpoints@, *local, i as int, j as nat))[k].1
                        &&& r@[k].0 < n
                        &&& r@[k].1 < n
                    },
                decreases n - j,
            {
                let ghost row = row_index_pairs(endpoints@, *local, i as int, j as nat);
                if !text_eq(endpoints[j].node.uid.as_str(), local.uid.as_str()) {
                    r.push((i, j));
                    proof {
                        assert(row_index_pairs(endpoints@, *local, i as int, (j + 1) as nat) == row.push((i as int, j as int)));
                        assert(before + row.push((i as int, j as int)) =~= (before + row).push((i as int, j as int)));
                    }
                } else {
                    assert(row_index_pairs(endpoints@, *local, i as int, (j + 1) as nat) == row);
                }
                j = j + 1;
            }
            assert(index_pairs(endpoints@, *local, (i + 1) as nat) == before + row_index_pairs(
                endpoints@,
                *local,
                i as int,
                n as nat,
            ));
        } else {
            assert(index_pairs(endpoints@, *local, (i + 1) as nat) == before);
        }
        i = i + 1;
    }
    r
}

/// Compiles a plan for every local source and remote destination endpoint,
/// bounds their number, orders them, and rejects ambiguous AllowedIPs.
pub fn compile_plans(ctx: &ContractCompileContext, local: &EncryptionNode, endpoints: &Vec<EncryptionEndpointFact>) -> (r:
    Result<Vec<AttestedEncryptionPathPlan>, EncryptionContractError>)
    ensures
        first_plan_error(inputs_of(*ctx), endpoints@, plan_pairs(endpoints@, *local)) matches Some(e) ==> r == Err::<
            Vec<AttestedEncryptionPathPlan>,
            EncryptionContractError,
        >(e),
        first_plan_error(inputs_of(*ctx), endpoints@, plan_pairs(endpoints@, *local)) is None && wanted_count(
            inputs_of(*ctx),
            endpoints@,
            plan_pairs(endpoints@, *local),
        ) > crate::model::MAX_ENCRYPTION_PATHS ==> r == Err::<Vec<AttestedEncryptionPathPlan>, EncryptionContractError>(
            EncryptionContractError::Capacity {
                kind: "plans",
                actual: wanted_count(inputs_of(*ctx), endpoints@, plan_pairs(endpoints@, *local)) as usize,
                limit: crate::model::MAX_ENCRYPTION_PATHS,
            },
        ),
        first_plan_error(inputs_of(*ctx), endpoints@, plan_pairs(endpoints@, *local)) is None && wanted_count(
            inputs_of(*ctx),
            endpoints@,
            plan_pairs(endpoints@, *local),
        ) <= crate::model::MAX_ENCRYPTION_PATHS && (forall|built: Seq<AttestedEncryptionPathPlan>|
            #[trigger] plans_built_for(built, inputs_of(*ctx), endpoints@, plan_pairs(endpoints@, *local))
                ==> allowed_ips_disjoint(built)) ==> r is Ok,
        r matches Ok(out) ==> {
            &&& first_plan_error(inputs_of(*ctx), endpoints@, plan_pairs(endpoints@, *local)) is None
            &&& crate::sorting::sorted_by_key(out@)
            &&& allowed_ips_disjoint(out@)
            &&& exists|built: Seq<AttestedEncryptionPathPlan>|
                #[trigger] plans_built_for(built, inputs_of(*ctx), endpoints@, plan_pairs(endpoints@, *local))
                    && out@.to_multiset() == built.to_multiset()
        },
        r is Err ==> plan_stage_error(inputs_of(*ctx), endpoints@, *local, r->Err_0),
        r == Err::<Vec<AttestedEncryptionPathPlan>, EncryptionContractError>(
            EncryptionContractError::AmbiguousAllowedIp,
        ) ==> first_plan_error(inputs_of(*ctx), endpoints@, plan_pairs(endpoints@, *local)) is None
            && exists|built: Seq<AttestedEncryptionPathPlan>|
            #[trigger] plans_built_for(built, inputs_of(*ctx), endpoints@, plan_pairs(endpoints@, *local))
                && !allowed_ips_disjoint(built),
{
    let pairs = plan_index_pairs(endpoints, local);
    let ghost ps = plan_pairs(endpoints@, *local);
    let mut plans: Vec<AttestedEncryptionPathPlan> = Vec::new();
    let mut k: usize = 0;
    while k < pairs.len()
        invariant
            pairs@.len() == ps.len(),
            ps == plan_pairs(endpoints@, *local),
            forall|q: int| 0 <= q < pairs@.len() ==> {
                &&& (#[trigger] pairs@[q]).0 as int == ps[q].0
                &&& pairs@[q].1 as int == ps[q].1
                &&& pairs@[q].0 < endpoints@.len()
                &&& pairs@[q].1 < endpoints@.len()
            },
            k <= pairs@.len(),
            first_plan_error(inputs_of(*ctx), endpoints@, ps.take(k as int)) is None,
            plans_built_for(plans@, inputs_of(*ctx), endpoints@, ps.take(k as int)),
            plans@.len() == wanted_count(inputs_of(*ctx), endpoints@, ps.take(k as int)),
        decreases pairs@.len() - k,
    {
        let (a, b) = pairs[k];
        proof {
            assert(ps.take(k + 1).drop_last() =~= ps.take(k as int));
            assert(ps.take(k + 1).last() == ps[k as int]);
        }
        let ghost before = plans@;
        match compile_plan(ctx, &endpoints[a], &endpoints[b]) {
            Err(e) => {
                proof {
                    lemma_first_plan_error_prefix(inputs_of(*ctx), endpoints@, ps, k + 1);
                }
                return Err(e);
            },
            Ok(Some(plan)) => {
                plans.push(plan);
                proof {
                    assert(plans@.drop_last() =~= before);
                }
            },
            Ok(None) => {},
        }
        k = k + 1;
    }
    proof {
        assert(ps.take(k as int) =~= ps);
    }
    if plans.len() > crate::model::MAX_ENCRYPTION_PATHS {
        return Err(
            EncryptionContractError::Capacity {
                kind: "plans",
                actual: plans.len(),
                limit: crate::model::MAX_ENCRYPTION_PATHS,
            },
        );
    }
    let ghost built = plans@;
    let sorted = crate::sorting::sort_by_key(plans);
    proof {
        assert forall|p: AttestedEncryptionPathPlan| sorted@.contains(p) == built.contains(p) by {
            vstd::seq_lib::to_multiset_contains(sorted@, p);
            vstd::seq_lib::to_multiset_contains(built, p);
        }
        assert(allowed_ips_disjoint(sorted@) == allowed_ips_disjoint(built));
    }
    match validate_disjoint_allowed_ips(&sorted) {
        Ok(()) => Ok(sorted),
        Err(e) => Err(e),
    }
}

} // verus!

verus! {

#[derive(Clone, Copy, Debug, PartialEq, Eq, Structural)]
pub enum EncryptionInvariant {
    ModelNormalized,
    ExactNodeOwnership,
    SameClusterBound,
    IdentityPairSelected,
    PolicyAllowBeforeEncryption,
    RequiredNoPlaintextFallback,
    PublicKeysOnly,
    EpochAndLifetimeBound,
    BidirectionalRoutesExact,
    AllowedIpsDisjoint,
    CapabilitiesAdmitted,
    StateBounded,
    FailureEnvelopeBounded,
}

#[derive(Clone, Copy, Debug, PartialEq, Eq, Structural)]
pub enum EncryptionFailureClass {
    SourceKeyUnavailable,
    DestinationKeyUnavailable,
    ForwardPathUnavailable,
    ReversePathUnavailable,
    MutualEvidenceUnavailable,
}

#[derive(Clone, Copy, Debug, PartialEq, Eq, Structural)]
pub enum EncryptionFailureOutcome {
    DenyRequired,
}

#[derive(Clone, Debug)]
pub struct EncryptionFailureObservation {
    pub source: IdentityId,
    pub source_workload_uid: String,
    pub destination: IdentityId,
    pub destination_workload_uid: String,
    pub class: EncryptionFailureClass,
    pub outcome: EncryptionFailureOutcome,
}

#[derive(Clone, Debug)]
pub struct EncryptionFailureEnvelope {
    pub observations: Vec<EncryptionFailureObservation>,
    pub total_observations: u64,
    pub truncated: bool,
}

#[derive(Clone, Copy, Debug)]
pub struct AttestedEncryptionContractDigest(pub [u8; 32]);

#[derive(Clone, Copy, Debug)]
pub struct EncryptionDecisionWitness(pub [u8; 16]);

#[derive(Clone, Debug)]
pub struct AttestedEncryptionPathContract {
    pub schema_version: u16,
    pub contract_revision: Revision,
    pub local_node: EncryptionNode,
    pub valid_from_unix_ms: u64,
    pub valid_until_unix_ms: u64,
    pub plans: Vec<AttestedEncryptionPathPlan>,
    pub verified_invariants: Vec<EncryptionInvariant>,
    pub failure_envelope: EncryptionFailureEnvelope,
    pub contract_digest: AttestedEncryptionContractDigest,
}

/// Every invariant a compiled contract establishes, in declaration order.
pub open spec fn all_invariants() -> Seq<EncryptionInvariant> {
    seq![
        EncryptionInvariant::ModelNormalized,
        EncryptionInvariant::ExactNodeOwnership,
        EncryptionInvariant::SameClusterBound,
        EncryptionInvariant::IdentityPairSelected,
        EncryptionInvariant::PolicyAllowBeforeEncryption,
        EncryptionInvariant::RequiredNoPlaintextFallback,
        EncryptionInvariant::PublicKeysOnly,
        EncryptionInvariant::EpochAndLifetimeBound,
        EncryptionInvariant::BidirectionalRoutesExact,
        EncryptionInvariant::AllowedIpsDisjoint,
        EncryptionInvariant::CapabilitiesAdmitted,
        EncryptionInvariant::StateBounded,
        EncryptionInvariant::FailureEnvelopeBounded,
    ]
}

fn invariants_list() -> (v: Vec<EncryptionInvariant>)
    ensures
        v@ == all_invariants(),
{
    let v = vec![
        EncryptionInvariant::ModelNormalized,
        EncryptionInvariant::ExactNodeOwnership,
        EncryptionInvariant::SameClusterBound,
        EncryptionInvariant::IdentityPairSelected,
        EncryptionInvariant::PolicyAllowBeforeEncryption,
        EncryptionInvariant::RequiredNoPlaintextFallback,
        EncryptionInvariant::PublicKeysOnly,
        EncryptionInvariant::EpochAndLifetimeBound,
        EncryptionInvariant::BidirectionalRoutesExact,
        EncryptionInvariant::AllowedIpsDisjoint,
        EncryptionInvariant::CapabilitiesAdmitted,
        EncryptionInvariant::StateBounded,
        EncryptionInvariant::FailureEnvelopeBounded,
    ];
    assert(v@ =~= all_invariants());
    v
}

/// The failure classes each plan is covered for, in order.
pub open spec fn failure_classes() -> Seq<EncryptionFailureClass> {
    seq![
        EncryptionFailureClass::SourceKeyUnavailable,
        EncryptionFailureClass::DestinationKeyUnavailable,
        EncryptionFailureClass::ForwardPathUnavailable,
        EncryptionFailureClass::ReversePathUnavailable,
        EncryptionFailureClass::MutualEvidenceUnavailable,
    ]
}

/// `o` denies the plan's pair on failure `class`.
pub open spec fn observation_for(o: EncryptionFailureObservation, p: AttestedEncryptionPathPlan, class: EncryptionFailureClass) -> bool {
    &&& o.source == p.source.identity
    &&& o.source_workload_uid@ == p.source.workload_uid@
    &&& o.destination == p.destination.identity
    &&& o.destination_workload_uid@ == p.destination.workload_uid@
    &&& o.class == class
    &&& o.outcome == EncryptionFailureOutcome::DenyRequired
}

pub open spec fn min_nat(a: nat, b: nat) -> nat {
    if a <= b {
        a
    } else {
        b
    }
}

/// The envelope of `plans`: one denial per plan and failure class, plan by
/// plan, the first 4096 of them kept, with the exact total.
pub open spec fn envelope_of(e: EncryptionFailureEnvelope, plans: Seq<AttestedEncryptionPathPlan>) -> bool {
    let total = plans.len() * 5;
    &&& e.observations@.len() == min_nat(total, crate::model::MAX_ENCRYPTION_FAILURE_OBSERVATIONS as nat)
    &&& forall|k: int|
        0 <= k < e.observations@.len() ==> observation_for(
            #[trigger] e.observations@[k],
            plans[k / 5],
            failure_classes()[k % 5],
        )
    &&& e.total_observations == (if total <= u64::MAX { total as u64 } else { u64::MAX })
    &&& e.truncated == (total > crate::model::MAX_ENCRYPTION_FAILURE_OBSERVATIONS)
}

proof fn lemma_div_mod_five(i: int, c: int)
    requires
        0 <= i,
        0 <= c < 5,
    ensures
        (i * 5 + c) / 5 == i,
        (i * 5 + c) % 5 == c,
{
    assert((i * 5 + c) / 5 == i && (i * 5 + c) % 5 == c) by (nonlinear_arith)
        requires
            0 <= i,
            0 <= c < 5,
    ;
}

/// The fail-closed envelope: every failure of every plan denies the pair.
pub fn failure_envelope(plans: &Vec<AttestedEncryptionPathPlan>) -> (e: EncryptionFailureEnvelope)
    ensures
        envelope_of(e, plans@),
{
    let classes = [
        EncryptionFailureClass::SourceKeyUnavailable,
        EncryptionFailureClass::DestinationKeyUnavailable,
        EncryptionFailureClass::ForwardPathUnavailable,
        EncryptionFailureClass::ReversePathUnavailable,
        EncryptionFailureClass::MutualEvidenceUnavailable,
    ];
    assert(classes@ =~= failure_classes());
    let cap = crate::model::MAX_ENCRYPTION_FAILURE_OBSERVATIONS;
    let mut observations: Vec<EncryptionFailureObservation> = Vec::new();
    let mut i: usize = 0;
    while i < plans.len()
        invariant
            classes@ == failure_classes(),
            i <= plans@.len(),
            observations@.len() == min_nat((i * 5) as nat, cap as nat),
            forall|k: int|
                0 <= k < observations@.len() ==> observation_for(
                    #[trigger] observations@[k],
                    plans@[k / 5],
                    failure_classes()[k % 5],
                ),
        decreases plans@.len() - i,
    {
        let plan = &plans[i];
        let mut c: usize = 0;
        while c < 5
            invariant
                classes@ == failure_classes(),
                i < plans@.len(),
                *plan == plans@[i as int],
                c <= 5,
                observations@.len() == min_nat((i * 5 + c) as nat, cap as nat),
                forall|k: int|
                    0 <= k < observations@.len() ==> observation_for(
                        #[trigger] observations@[k],
                        plans@[k / 5],
                        failure_classes()[k % 5],
                    ),
            decreases 5 - c,
        {
            if observations.len() < cap {
                let ghost before = observations@;
                observations.push(
                    EncryptionFailureObservation {
                        source: plan.source.identity,
                        source_workload_uid: plan.source.workload_uid.clone(),
                        destination: plan.destination.identity,
                        destination_workload_uid: plan.destination.workload_uid.clone(),
                        class: classes[c],
                        outcome: EncryptionFailureOutcome::DenyRequired,
                    },
                );
                proof {
                    lemma_div_mod_five(i as int, c as int);
                    assert(before.len() == i * 5 + c);
                    assert forall|k: int| 0 <= k < observations@.len() implies observation_for(
                        #[trigger] observations@[k],
                        plans@[k / 5],
                        failure_classes()[k % 5],
                    ) by {
                        if k < before.len() {
                            assert(observations@[k] == before[k]);
                        }
                    }
                }
            }
            c = c + 1;
        }
        i = i + 1;
    }
    let total: u128 = (plans.len() as u128) * 5;
    let total_observations: u64 = if total > u64::MAX as u128 {
        u64::MAX
    } else {
        total as u64
    };
    EncryptionFailureEnvelope { observations, total_observations, truncated: total > cap as u128 }
}

} // verus!

verus! {

/// A value with a canonical byte encoding.
pub trait Encode {
    spec fn enc(self) -> Seq<u8>;

    fn push_enc(&self, out: &mut Vec<u8>)
        ensures
            final(out)@ == old(out)@ + self.enc(),
    ;
}

pub open spec fn concat_enc<T: Encode>(v: Seq<T>) -> Seq<u8>
    decreases v.len(),
{
    if v.len() == 0 {
        Seq::empty()
    } else {
        concat_enc(v.drop_last()) + v.last().enc()
    }
}

/// A length-prefixed list.
pub open spec fn list_enc<T: Encode>(v: Seq<T>) -> Seq<u8> {
    crate::digest::u64_bytes(v.len() as u64) + concat_enc(v)
}

pub fn push_list<T: Encode>(out: &mut Vec<u8>, v: &Vec<T>)
    ensures
        final(out)@ == old(out)@ + list_enc(v@),
{
    let ghost start = out@;
    crate::digest::push_u64(out, v.len() as u64);
    let mut i: usize = 0;
    while i < v.len()
        invariant
            i <= v@.len(),
            out@ == start + crate::digest::u64_bytes(v@.len() as u64) + concat_enc(v@.take(i as int)),
        decreases v@.len() - i,
    {
        let ghost mid = out@;
        v[i].push_enc(out);
        proof {
            assert(v@.take(i + 1).drop_last() =~= v@.take(i as int));
            assert(out@ =~= start + crate::digest::u64_bytes(v@.len() as u64) + concat_enc(v@.take(i + 1)));
        }
        i = i + 1;
    }
    assert(v@.take(i as int) =~= v@);
}

impl Encode for IpAddr {
    open spec fn enc(self) -> Seq<u8> {
        match self {
            IpAddr::V4(x) => seq![4u8] + crate::digest::u32_bytes(x),
            IpAddr::V6(x) => seq![6u8] + crate::digest::u64_bytes((x >> 64u128) as u64)
                + crate::digest::u64_bytes(x as u64),
        }
    }

    fn push_enc(&self, out: &mut Vec<u8>) {
        match *self {
            IpAddr::V4(x) => {
                out.push(4u8);
                crate::digest::push_u32(out, x);
            },
            IpAddr::V6(x) => {
                out.push(6u8);
                crate::digest::push_u64(out, (x >> 64u128) as u64);
                crate::digest::push_u64(out, x as u64);
            },
        }
        assert(final(out)@ =~= old(out)@ + self.enc());
    }
}

impl Encode for IpPrefix {
    open spec fn enc(self) -> Seq<u8> {
        self.address.enc() + seq![self.prefix_len]
    }

    fn push_enc(&self, out: &mut Vec<u8>) {
        self.address.push_enc(out);
        out.push(self.prefix_len);
        assert(final(out)@ =~= old(out)@ + self.enc());
    }
}

pub open spec fn capability_code(c: EncryptionCapability) -> u8 {
    match c {
        EncryptionCapability::KernelWireGuard => 0,
        EncryptionCapability::DualStackUnderlay => 1,
        EncryptionCapability::PolicyRouting => 2,
        EncryptionCapability::TwoEpochRotation => 3,
        EncryptionCapability::EncryptedPathChallenge => 4,
    }
}

impl Encode for EncryptionCapability {
    open spec fn enc(self) -> Seq<u8> {
        seq![capability_code(self)]
    }

    fn push_enc(&self, out: &mut Vec<u8>) {
        let code: u8 = match *self {
            EncryptionCapability::KernelWireGuard => 0,
            EncryptionCapability::DualStackUnderlay => 1,
            EncryptionCapability::PolicyRouting => 2,
            EncryptionCapability::TwoEpochRotation => 3,
            EncryptionCapability::EncryptedPathChallenge => 4,
        };
        out.push(code);
        assert(final(out)@ =~= old(out)@ + self.enc());
    }
}

impl Encode for PolicyId {
    open spec fn enc(self) -> Seq<u8> {
        crate::digest::u32_bytes(self.0)
    }

    fn push_enc(&self, out: &mut Vec<u8>) {
        crate::digest::push_u32(out, self.0);
    }
}

impl Encode for String {
    open spec fn enc(self) -> Seq<u8> {
        crate::digest::text_bytes(self@)
    }

    fn push_enc(&self, out: &mut Vec<u8>) {
        crate::digest::push_text(out, self.as_str());
    }
}

pub open spec fn invariant_code(i: EncryptionInvariant) -> u8 {
    match i {
        EncryptionInvariant::ModelNormalized => 0,
        EncryptionInvariant::ExactNodeOwnership => 1,
        EncryptionInvariant::SameClusterBound => 2,
        EncryptionInvariant::IdentityPairSelected => 3,
        EncryptionInvariant::PolicyAllowBeforeEncryption => 4,
        EncryptionInvariant::RequiredNoPlaintextFallback => 5,
        EncryptionInvariant::PublicKeysOnly => 6,
        EncryptionInvariant::EpochAndLifetimeBound => 7,
        EncryptionInvariant::BidirectionalRoutesExact => 8,
        EncryptionInvariant::AllowedIpsDisjoint => 9,
        EncryptionInvariant::CapabilitiesAdmitted => 10,
        EncryptionInvariant::StateBounded => 11,
        EncryptionInvariant::FailureEnvelopeBounded => 12,
    }
}

impl Encode for EncryptionInvariant {
    open spec fn enc(self) -> Seq<u8> {
        seq![invariant_code(self)]
    }

    fn push_enc(&self, out: &mut Vec<u8>) {
        let code: u8 = match *self {
            EncryptionInvariant::ModelNormalized => 0,
            EncryptionInvariant::ExactNodeOwnership => 1,
            EncryptionInvariant::SameClusterBound => 2,
            EncryptionInvariant::IdentityPairSelected => 3,
            EncryptionInvariant::PolicyAllowBeforeEncryption => 4,
            EncryptionInvariant::RequiredNoPlaintextFallback => 5,
            EncryptionInvariant::PublicKeysOnly => 6,
            EncryptionInvariant::EpochAndLifetimeBound => 7,
            EncryptionInvariant::BidirectionalRoutesExact => 8,
            EncryptionInvariant::AllowedIpsDisjoint => 9,
            EncryptionInvariant::CapabilitiesAdmitted => 10,
            EncryptionInvariant::StateBounded => 11,
            EncryptionInvariant::FailureEnvelopeBounded => 12,
        };
        out.push(code);
        assert(final(out)@ =~= old(out)@ + self.enc());
    }
}

pub open spec fn failure_class_code(c: EncryptionFailureClass) -> u8 {
    match c {
        EncryptionFailureClass::SourceKeyUnavailable => 0,
        EncryptionFailureClass::DestinationKeyUnavailable => 1,
        EncryptionFailureClass::ForwardPathUnavailable => 2,
        EncryptionFailureClass::ReversePathUnavailable => 3,
        EncryptionFailureClass::MutualEvidenceUnavailable => 4,
    }
}

impl Encode for EncryptionFailureObservation {
    open spec fn enc(self) -> Seq<u8> {
        crate::digest::u32_bytes(self.source.0) + crate::digest::text_bytes(self.source_workload_uid@)
            + crate::digest::u32_bytes(self.destination.0) + crate::digest::text_bytes(
            self.destination_workload_uid@,
        ) + seq![failure_class_code(self.class)] + seq![0u8]
    }

    fn push_enc(&self, out: &mut Vec<u8>) {
        crate::digest::push_u32(out, self.source.0);
        crate::digest::push_text(out, self.source_workload_uid.as_str());
        crate::digest::push_u32(out, self.destination.0);
        crate::digest::push_text(out, self.destination_workload_uid.as_str());
        let code: u8 = match self.class {
            EncryptionFailureClass::SourceKeyUnavailable => 0,
            EncryptionFailureClass::DestinationKeyUnavailable => 1,
            EncryptionFailureClass::ForwardPathUnavailable => 2,
            EncryptionFailureClass::ReversePathUnavailable => 3,
            EncryptionFailureClass::MutualEvidenceUnavailable => 4,
        };
        out.push(code);
        out.push(0u8);
        assert(final(out)@ =~= old(out)@ + self.enc());
    }
}

impl Encode for EncryptionNode {
    open spec fn enc(self) -> Seq<u8> {
        crate::digest::text_bytes(self.cluster_id@) + crate::digest::text_bytes(self.name@)
            + crate::digest::text_bytes(self.uid@) + list_enc(self.pod_cidrs@) + list_enc(
            self.underlay_addresses@,
        ) + list_enc(self.capabilities@)
    }

    fn push_enc(&self, out: &mut Vec<u8>) {
        crate::digest::push_text(out, self.cluster_id.as_str());
        crate::digest::push_text(out, self.name.as_str());
        crate::digest::push_text(out, self.uid.as_str());
        push_list(out, &self.pod_cidrs);
        push_list(out, &self.underlay_addresses);
        push_list(out, &self.capabilities);
        assert(final(out)@ =~= old(out)@ + self.enc());
    }
}

impl Encode for EncryptionEndpointFact {
    open spec fn enc(self) -> Seq<u8> {
        crate::digest::u32_bytes(self.identity.0) + crate::digest::text_bytes(self.workload_uid@) + self.node.enc()
    }

    fn push_enc(&self, out: &mut Vec<u8>) {
        crate::digest::push_u32(out, self.identity.0);
        crate::digest::push_text(out, self.workload_uid.as_str());
        self.node.push_enc(out);
        assert(final(out)@ =~= old(out)@ + self.enc());
    }
}

impl Encode for EncryptionPathFact {
    open spec fn enc(self) -> Seq<u8> {
        crate::digest::text_bytes(self.source_node_uid@) + crate::digest::text_bytes(self.destination_node_uid@)
            + crate::digest::u64_bytes(self.epoch) + seq![0u8] + self.peer_endpoint.ip.enc()
            + crate::digest::u16_bytes(self.peer_endpoint.port) + list_enc(self.allowed_ips@)
            + crate::digest::text_bytes(self.interface_name@) + crate::digest::u32_bytes(self.route_table)
            + crate::digest::u32_bytes(self.fwmark) + crate::digest::u32_bytes(self.mtu)
    }

    fn push_enc(&self, out: &mut Vec<u8>) {
        crate::digest::push_text(out, self.source_node_uid.as_str());
        crate::digest::push_text(out, self.destination_node_uid.as_str());
        crate::digest::push_u64(out, self.epoch);
        out.push(0u8);
        self.peer_endpoint.ip.push_enc(out);
        crate::digest::push_u16(out, self.peer_endpoint.port);
        push_list(out, &self.allowed_ips);
        crate::digest::push_text(out, self.interface_name.as_str());
        crate::digest::push_u32(out, self.route_table);
        crate::digest::push_u32(out, self.fwmark);
        crate::digest::push_u32(out, self.mtu);
        assert(final(out)@ =~= old(out)@ + self.enc());
    }
}

pub open spec fn key_phase_code(p: EncryptionKeyPhase) -> u8 {
    match p {
        EncryptionKeyPhase::Prepared => 0,
        EncryptionKeyPhase::Active => 1,
    }
}

impl Encode for EncryptionKeyBinding {
    open spec fn enc(self) -> Seq<u8> {
        crate::digest::text_bytes(self.node_uid@) + crate::digest::u64_bytes(self.epoch) + self.public_key.0@
            + self.public_key_digest.0@ + seq![key_phase_code(self.phase)]
    }

    fn push_enc(&self, out: &mut Vec<u8>) {
        crate::digest::push_text(out, self.node_uid.as_str());
        crate::digest::push_u64(out, self.epoch);
        crate::digest::push_raw32(out, &self.public_key.0);
        crate::digest::push_raw32(out, &self.public_key_digest.0);
        let code: u8 = match self.phase {
            EncryptionKeyPhase::Prepared => 0,
            EncryptionKeyPhase::Active => 1,
        };
        out.push(code);
        assert(final(out)@ =~= old(out)@ + self.enc());
    }
}

impl Encode for EncryptionContractRevisions {
    open spec fn enc(self) -> Seq<u8> {
        crate::digest::u64_bytes(self.intent.0) + crate::digest::u64_bytes(self.identity.0)
            + crate::digest::u64_bytes(self.policy.0) + crate::digest::u64_bytes(self.routing.0)
            + crate::digest::u64_bytes(self.key.0)
    }

    fn push_enc(&self, out: &mut Vec<u8>) {
        crate::digest::push_u64(out, self.intent.0);
        crate::digest::push_u64(out, self.identity.0);
        crate::digest::push_u64(out, self.policy.0);
        crate::digest::push_u64(out, self.routing.0);
        crate::digest::push_u64(out, self.key.0);
        assert(final(out)@ =~= old(out)@ + self.enc());
    }
}

pub open spec fn disposition_code(d: crate::model::EncryptionDisposition) -> u8 {
    if d == crate::model::EncryptionDisposition::Required {
        1u8
    } else {
        0u8
    }
}

/// The endpoints and disposition of a plan.
pub open spec fn plan_head_enc(p: AttestedEncryptionPathPlan) -> Seq<u8> {
    p.source.enc() + p.destination.enc() + seq![disposition_code(p.disposition)]
}

/// The intents and policy binding of a plan.
pub open spec fn plan_policy_enc(p: AttestedEncryptionPathPlan) -> Seq<u8> {
    list_enc(p.intent_uids@) + list_enc(p.policy.policy_ids@) + crate::digest::u64_bytes(p.policy.revision.0)
}

/// The key bindings and routes of a plan.
pub open spec fn plan_binding_enc(p: AttestedEncryptionPathPlan) -> Seq<u8> {
    p.source_key.enc() + p.destination_key.enc() + p.transport.forward.enc() + p.transport.reverse.enc()
}

fn push_plan_head(out: &mut Vec<u8>, p: &AttestedEncryptionPathPlan)
    ensures
        final(out)@ == old(out)@ + plan_head_enc(*p),
{
    p.source.push_enc(out);
    p.destination.push_enc(out);
    let code: u8 = if p.disposition == crate::model::EncryptionDisposition::Required {
        1
    } else {
        0
    };
    out.push(code);
    assert(final(out)@ =~= old(out)@ + plan_head_enc(*p));
}

fn push_plan_policy(out: &mut Vec<u8>, p: &AttestedEncryptionPathPlan)
    ensures
        final(out)@ == old(out)@ + plan_policy_enc(*p),
{
    push_list(out, &p.intent_uids);
    push_list(out, &p.policy.policy_ids);
    crate::digest::push_u64(out, p.policy.revision.0);
    assert(final(out)@ =~= old(out)@ + plan_policy_enc(*p));
}

fn push_plan_binding(out: &mut Vec<u8>, p: &AttestedEncryptionPathPlan)
    ensures
        final(out)@ == old(out)@ + plan_binding_enc(*p),
{
    p.source_key.push_enc(out);
    p.destination_key.push_enc(out);
    p.transport.forward.push_enc(out);
    p.transport.reverse.push_enc(out);
    assert(final(out)@ =~= old(out)@ + plan_binding_enc(*p));
}

impl Encode for AttestedEncryptionPathPlan {
    open spec fn enc(self) -> Seq<u8> {
        plan_head_enc(self) + plan_policy_enc(self) + plan_binding_enc(self) + self.revisions.enc()
    }

    fn push_enc(&self, out: &mut Vec<u8>) {
        push_plan_head(out, self);
        push_plan_policy(out, self);
        push_plan_binding(out, self);
        self.revisions.push_enc(out);
        assert(final(out)@ =~= old(out)@ + self.enc());
    }
}

pub const CONTRACT_DIGEST_DOMAIN: &'static str = "unf.attested-encryption-path-contract.v1";

/// The contract's revision, local Node, and lifetime.
pub open spec fn contract_head_enc(c: AttestedEncryptionPathContract) -> Seq<u8> {
    crate::digest::u16_bytes(c.schema_version) + crate::digest::u64_bytes(c.contract_revision.0) + c.local_node.enc()
        + crate::digest::u64_bytes(c.valid_from_unix_ms) + crate::digest::u64_bytes(c.valid_until_unix_ms)
}

/// The contract's failure envelope.
pub open spec fn envelope_enc(e: EncryptionFailureEnvelope) -> Seq<u8> {
    list_enc(e.observations@) + crate::digest::u64_bytes(e.total_observations) + crate::digest::bool_bytes(e.truncated)
}

/// Every field of the contract but its digest.
pub open spec fn contract_material(c: AttestedEncryptionPathContract) -> Seq<u8> {
    contract_head_enc(c) + list_enc(c.plans@) + list_enc(c.verified_invariants@) + envelope_enc(c.failure_envelope)
}

fn push_contract_head(out: &mut Vec<u8>, c: &AttestedEncryptionPathContract)
    ensures
        final(out)@ == old(out)@ + contract_head_enc(*c),
{
    crate::digest::push_u16(out, c.schema_version);
    crate::digest::push_u64(out, c.contract_revision.0);
    c.local_node.push_enc(out);
    crate::digest::push_u64(out, c.valid_from_unix_ms);
    crate::digest::push_u64(out, c.valid_until_unix_ms);
    assert(final(out)@ =~= old(out)@ + contract_head_enc(*c));
}

fn push_envelope(out: &mut Vec<u8>, e: &EncryptionFailureEnvelope)
    ensures
        final(out)@ == old(out)@ + envelope_enc(*e),
{
    push_list(out, &e.observations);
    crate::digest::push_u64(out, e.total_observations);
    crate::digest::push_bool(out, e.truncated);
    assert(final(out)@ =~= old(out)@ + envelope_enc(*e));
}

pub open spec fn contract_digest_spec(c: AttestedEncryptionPathContract) -> Seq<u8> {
    crate::digest::sha256_spec(crate::digest::text_bytes(CONTRACT_DIGEST_DOMAIN@) + contract_material(c))
}

impl AttestedEncryptionPathContract {
    /// The digest that commits to every other field.
    #[verifier::spinoff_prover]
    #[verifier::rlimit(60)]
    pub fn calculate_digest(&self) -> (d: AttestedEncryptionContractDigest)
        ensures
            d.0@ == contract_digest_spec(*self),
    {
        let mut m: Vec<u8> = Vec::new();
        crate::digest::push_text(&mut m, CONTRACT_DIGEST_DOMAIN);
        push_contract_head(&mut m, self);
        push_list(&mut m, &self.plans);
        push_list(&mut m, &self.verified_invariants);
        push_envelope(&mut m, &self.failure_envelope);
        assert(m@ =~= crate::digest::text_bytes(CONTRACT_DIGEST_DOMAIN@) + contract_material(*self));
        AttestedEncryptionContractDigest(crate::digest::sha256(&m))
    }
}

} // verus!

verus! {

pub const LOCAL_CLUSTER_MISMATCH: &'static str = "local cluster identity mismatch";

pub const CROSS_CLUSTER_ENDPOINT: &'static str = "cross-cluster endpoint is outside Phase 9";

pub const LOCAL_IDENTITY_CONFLICT: &'static str = "local Node identity conflicts with endpoint facts";

/// Some endpoint belongs to another cluster.
pub open spec fn cross_cluster_endpoint(eps: Seq<EncryptionEndpointFact>, cluster_id: Seq<char>) -> bool {
    exists|i: int| 0 <= i < eps.len() && (#[trigger] eps[i]).node.cluster_id@ != cluster_id
}

/// An endpoint names the local Node's UID with another Node, or its name
/// with another UID.
pub open spec fn local_identity_conflict(eps: Seq<EncryptionEndpointFact>, local: EncryptionNode) -> bool {
    exists|i: int|
        0 <= i < eps.len() && ((#[trigger] eps[i]).node.uid@ == local.uid@ && !node_equiv(eps[i].node, local)
            || eps[i].node.name@ == local.name@ && eps[i].node.uid@ != local.uid@)
}

/// What the contract is rejected for before any plan is compiled, in the
/// order of the checks.
pub open spec fn contract_input_error(
    model: crate::model::EncryptionModel,
    facts: EncryptionContractFacts,
    local: EncryptionNode,
    contract_revision: Revision,
    valid_from_unix_ms: u64,
    valid_until_unix_ms: u64,
) -> Option<EncryptionContractError> {
    if crate::model::normalized_error(model) is Some {
        Some(EncryptionContractError::InvalidModel(crate::model::normalized_error(model)->0))
    } else if !revisions_and_lifetime_ok(facts, contract_revision, valid_from_unix_ms, valid_until_unix_ms) {
        Some(EncryptionContractError::InvalidRevisionOrLifetime)
    } else if node_error(local) is Some {
        node_error(local)
    } else if local.cluster_id@ != model.cluster_id@ {
        Some(EncryptionContractError::InvalidNode(LOCAL_CLUSTER_MISMATCH))
    } else if fact_bounds_error(facts) is Some {
        fact_bounds_error(facts)
    } else if first_endpoint_error(facts.endpoints@) is Some {
        first_endpoint_error(facts.endpoints@)
    } else if endpoints_conflict(facts.endpoints@) {
        Some(EncryptionContractError::InvalidNode(CONFLICTING_NODE_FACTS))
    } else if !keys_distinct(facts.endpoints@) {
        Some(EncryptionContractError::InvalidEndpoint)
    } else if cross_cluster_endpoint(facts.endpoints@, model.cluster_id@) {
        Some(EncryptionContractError::InvalidNode(CROSS_CLUSTER_ENDPOINT))
    } else if local_identity_conflict(facts.endpoints@, local) {
        Some(EncryptionContractError::InvalidNode(LOCAL_IDENTITY_CONFLICT))
    } else if !((forall|i: int| 0 <= i < facts.policies@.len() ==> policy_fact_ok(#[trigger] facts.policies@[i]))
        && keys_distinct(facts.policies@)) {
        Some(EncryptionContractError::InvalidPolicy)
    } else if !keys_ok(facts.keys@) {
        Some(EncryptionContractError::InvalidKey)
    } else if exists|i: int| 0 <= i < facts.paths@.len() && !keys_distinct((#[trigger] facts.paths@[i]).allowed_ips@) {
        Some(EncryptionContractError::InvalidPath(DUPLICATE_ALLOWED_IPS))
    } else if !keys_distinct(facts.paths@) {
        Some(EncryptionContractError::InvalidPath(DUPLICATE_DIRECTIONAL_PATH))
    } else {
        None
    }
}

/// The canonical forms of the facts.
pub open spec fn canonical_facts(
    eps: Seq<EncryptionEndpointFact>,
    pols: Seq<EncryptionPolicyFact>,
    keys: Seq<EncryptionKeyFact>,
    paths: Seq<EncryptionPathFact>,
    facts: EncryptionContractFacts,
) -> bool {
    &&& endpoints_canonical_of(eps, facts.endpoints@)
    &&& policies_canonical_of(pols, facts.policies@)
    &&& keys.to_multiset() == facts.keys@.to_multiset()
    &&& strictly_sorted_by_key(keys)
    &&& paths_canonical_of(paths, facts.paths@)
}

pub open spec fn plan_inputs(
    model: crate::model::EncryptionModel,
    facts: EncryptionContractFacts,
    pols: Seq<EncryptionPolicyFact>,
    keys: Seq<EncryptionKeyFact>,
    paths: Seq<EncryptionPathFact>,
    valid_from_unix_ms: u64,
    valid_until_unix_ms: u64,
) -> PlanInputs {
    PlanInputs {
        model,
        revisions: facts.revisions,
        active_epoch: facts.active_epoch,
        policies: pols,
        keys,
        paths,
        valid_from_unix_ms,
        valid_until_unix_ms,
    }
}

/// Every pair compiles, the plans fit, and their AllowedIPs are disjoint.
pub open spec fn plan_stage_ok(ctx: PlanInputs, eps: Seq<EncryptionEndpointFact>, local: EncryptionNode) -> bool {
    &&& first_plan_error(ctx, eps, plan_pairs(eps, local)) is None
    &&& wanted_count(ctx, eps, plan_pairs(eps, local)) <= crate::model::MAX_ENCRYPTION_PATHS
    &&& forall|built: Seq<AttestedEncryptionPathPlan>|
        #[trigger] plans_built_for(built, ctx, eps, plan_pairs(eps, local)) ==> allowed_ips_disjoint(built)
}

/// `e` is what plan compilation reports.
pub open spec fn plan_stage_error(
    ctx: PlanInputs,
    eps: Seq<EncryptionEndpointFact>,
    local: EncryptionNode,
    e: EncryptionContractError,
) -> bool {
    let ps = plan_pairs(eps, local);
    ||| first_plan_error(ctx, eps, ps) == Some(e)
    ||| first_plan_error(ctx, eps, ps) is None && wanted_count(ctx, eps, ps) > crate::model::MAX_ENCRYPTION_PATHS
        && e == EncryptionContractError::Capacity {
        kind: "plans",
        actual: wanted_count(ctx, eps, ps) as usize,
        limit: crate::model::MAX_ENCRYPTION_PATHS,
    }
    ||| first_plan_error(ctx, eps, ps) is None && wanted_count(ctx, eps, ps) <= crate::model::MAX_ENCRYPTION_PATHS
        && e == EncryptionContractError::AmbiguousAllowedIp && exists|built: Seq<AttestedEncryptionPathPlan>|
        #[trigger] plans_built_for(built, ctx, eps, ps) && !allowed_ips_disjoint(built)
}

/// `c` is the contract compiled from the inputs.
pub open spec fn contract_compiled(
    c: AttestedEncryptionPathContract,
    model: crate::model::EncryptionModel,
    facts: EncryptionContractFacts,
    local: EncryptionNode,
    contract_revision: Revision,
    valid_from_unix_ms: u64,
    valid_until_unix_ms: u64,
) -> bool {
    &&& c.schema_version == ATTESTED_ENCRYPTION_PATH_CONTRACT_SCHEMA_VERSION
    &&& c.contract_revision == contract_revision
    &&& c.valid_from_unix_ms == valid_from_unix_ms
    &&& c.valid_until_unix_ms == valid_until_unix_ms
    &&& node_canonical_of(c.local_node, local)
    &&& c.verified_invariants@ == all_invariants()
    &&& envelope_of(c.failure_envelope, c.plans@)
    &&& c.contract_digest.0@ == contract_digest_spec(c)
    &&& crate::sorting::sorted_by_key(c.plans@)
    &&& allowed_ips_disjoint(c.plans@)
    &&& exists|eps: Seq<EncryptionEndpointFact>, pols: Seq<EncryptionPolicyFact>, keys: Seq<EncryptionKeyFact>, paths: Seq<EncryptionPathFact>|
        #[trigger] canonical_facts(eps, pols, keys, paths, facts) && plan_stage_ok(
            plan_inputs(model, facts, pols, keys, paths, valid_from_unix_ms, valid_until_unix_ms),
            eps,
            c.local_node,
        ) && exists|built: Seq<AttestedEncryptionPathPlan>|
            #[trigger] plans_built_for(
                built,
                plan_inputs(model, facts, pols, keys, paths, valid_from_unix_ms, valid_until_unix_ms),
                eps,
                plan_pairs(eps, c.local_node),
            ) && c.plans@.to_multiset() == built.to_multiset()
}

} // verus!

verus! {

/// `r` is what compiling the contract from these inputs answers: the first
/// rejected input, or else the outcome of plan compilation over the
/// canonical facts.
pub open spec fn issued_as(
    r: Result<AttestedEncryptionPathContract, EncryptionContractError>,
    model: crate::model::EncryptionModel,
    facts: EncryptionContractFacts,
    local: EncryptionNode,
    contract_revision: Revision,
    valid_from_unix_ms: u64,
    valid_until_unix_ms: u64,
) -> bool {
    let front = contract_input_error(model, facts, local, contract_revision, valid_from_unix_ms, valid_until_unix_ms);
    &&& front matches Some(e) ==> r == Err::<AttestedEncryptionPathContract, EncryptionContractError>(e)
    &&& front is None && (forall|eps: Seq<EncryptionEndpointFact>, pols: Seq<EncryptionPolicyFact>, keys: Seq<EncryptionKeyFact>, paths: Seq<EncryptionPathFact>, l: EncryptionNode|
        #![trigger canonical_facts(eps, pols, keys, paths, facts), node_canonical_of(l, local)]
        canonical_facts(eps, pols, keys, paths, facts) && node_canonical_of(l, local) ==> plan_stage_ok(
            plan_inputs(model, facts, pols, keys, paths, valid_from_unix_ms, valid_until_unix_ms),
            eps,
            l,
        )) ==> r is Ok
    &&& r matches Ok(c) ==> contract_compiled(c, model, facts, local, contract_revision, valid_from_unix_ms, valid_until_unix_ms)
    &&& r is Err && front is None ==> exists|eps: Seq<EncryptionEndpointFact>, pols: Seq<EncryptionPolicyFact>, keys: Seq<EncryptionKeyFact>, paths: Seq<EncryptionPathFact>, l: EncryptionNode|
        #![trigger canonical_facts(eps, pols, keys, paths, facts), node_canonical_of(l, local)]
        canonical_facts(eps, pols, keys, paths, facts) && node_canonical_of(l, local) && plan_stage_error(
            plan_inputs(model, facts, pols, keys, paths, valid_from_unix_ms, valid_until_unix_ms),
            eps,
            l,
            r->Err_0,
        )
}

fn compile_contract(
    model: &crate::model::EncryptionModel,
    facts: &EncryptionContractFacts,
    local_node: &EncryptionNode,
    contract_revision: Revision,
    valid_from_unix_ms: u64,
    valid_until_unix_ms: u64,
) -> (r: Result<AttestedEncryptionPathContract, EncryptionContractError>)
    ensures
        issued_as(r, *model, *facts, *local_node, contract_revision, valid_from_unix_ms, valid_until_unix_ms),
{
    let ghost input_local = *local_node;
    match model.verify_normalized() {
        Err(e) => {
            return Err(EncryptionContractError::InvalidModel(e));
        },
        Ok(()) => {},
    }
    validate_revisions_and_lifetime(facts, contract_revision, valid_from_unix_ms, valid_until_unix_ms)?;
    let local = canonical_node(local_node.duplicate())?;
    if !text_eq(local.cluster_id.as_str(), model.cluster_id.as_str()) {
        return Err(EncryptionContractError::InvalidNode(LOCAL_CLUSTER_MISMATCH));
    }
    validate_fact_bounds(facts)?;
    let endpoints = canonical_endpoints(&facts.endpoints)?;
    let n = endpoints.len();
    let mut cross = false;
    let mut conflict = false;
    let mut i: usize = 0;
    while i < n
        invariant
            n == endpoints@.len(),
            i <= n,
            node_canonical_of(local, input_local),
            cross == exists|j: int| 0 <= j < i && (#[trigger] endpoints@[j]).node.cluster_id@ != model.cluster_id@,
            conflict == exists|j: int|
                0 <= j < i && ((#[trigger] endpoints@[j]).node.uid@ == local.uid@ && !node_same(endpoints@[j].node, local)
                    || endpoints@[j].node.name@ == local.name@ && endpoints@[j].node.uid@ != local.uid@),
        decreases n - i,
    {
        let e = &endpoints[i];
        if !text_eq(e.node.cluster_id.as_str(), model.cluster_id.as_str()) {
            cross = true;
        }
        let uid_same = text_eq(e.node.uid.as_str(), local.uid.as_str());
        if (uid_same && !node_equal(&e.node, &local)) || (text_eq(e.node.name.as_str(), local.name.as_str())
            && !uid_same) {
            conflict = true;
        }
        i = i + 1;
    }
    proof {
        lemma_canonical_endpoint_checks(endpoints@, facts.endpoints@, local, input_local, model.cluster_id@);
    }
    if cross {
        return Err(EncryptionContractError::InvalidNode(CROSS_CLUSTER_ENDPOINT));
    }
    if conflict {
        return Err(EncryptionContractError::InvalidNode(LOCAL_IDENTITY_CONFLICT));
    }
    let policies = canonical_policies(&facts.policies)?;
    let keys = canonical_keys(&facts.keys)?;
    let paths = canonical_paths(&facts.paths)?;
    let ghost canon_local = local;
    proof {
        assert(canonical_facts(endpoints@, policies@, keys@, paths@, *facts));
    }
    let r = finish_contract(
        model,
        facts,
        local,
        &endpoints,
        &policies,
        &keys,
        &paths,
        contract_revision,
        valid_from_unix_ms,
        valid_until_unix_ms,
    );
    proof {
        assert(canonical_facts(endpoints@, policies@, keys@, paths@, *facts));
        assert(node_canonical_of(canon_local, input_local));
    }
    r
}

/// Compiles and seals the plans once every input is canonical.
#[verifier::rlimit(30)]
fn finish_contract(
    model: &crate::model::EncryptionModel,
    facts: &EncryptionContractFacts,
    local: EncryptionNode,
    endpoints: &Vec<EncryptionEndpointFact>,
    policies: &Vec<EncryptionPolicyFact>,
    keys: &Vec<EncryptionKeyFact>,
    paths: &Vec<EncryptionPathFact>,
    contract_revision: Revision,
    valid_from_unix_ms: u64,
    valid_until_unix_ms: u64,
) -> (r: Result<AttestedEncryptionPathContract, EncryptionContractError>)
    ensures
        plan_stage_ok(
            plan_inputs(*model, *facts, policies@, keys@, paths@, valid_from_unix_ms, valid_until_unix_ms),
            endpoints@,
            local,
        ) ==> r is Ok,
        r is Err ==> plan_stage_error(
            plan_inputs(*model, *facts, policies@, keys@, paths@, valid_from_unix_ms, valid_until_unix_ms),
            endpoints@,
            local,
            r->Err_0,
        ),
        r matches Ok(c) ==> {
            &&& c.schema_version == ATTESTED_ENCRYPTION_PATH_CONTRACT_SCHEMA_VERSION
            &&& c.contract_revision == contract_revision
            &&& c.valid_from_unix_ms == valid_from_unix_ms
            &&& c.valid_until_unix_ms == valid_until_unix_ms
            &&& c.local_node == local
            &&& c.verified_invariants@ == all_invariants()
            &&& envelope_of(c.failure_envelope, c.plans@)
            &&& c.contract_digest.0@ == contract_digest_spec(c)
            &&& crate::sorting::sorted_by_key(c.plans@)
            &&& allowed_ips_disjoint(c.plans@)
            &&& plan_stage_ok(
                plan_inputs(*model, *facts, policies@, keys@, paths@, valid_from_unix_ms, valid_until_unix_ms),
                endpoints@,
                local,
            )
            &&& exists|built: Seq<AttestedEncryptionPathPlan>|
                #[trigger] plans_built_for(
                    built,
                    plan_inputs(*model, *facts, policies@, keys@, paths@, valid_from_unix_ms, valid_until_unix_ms),
                    endpoints@,
                    plan_pairs(endpoints@, local),
                ) && c.plans@.to_multiset() == built.to_multiset()
        },
{
    let ctx = ContractCompileContext {
        model,
        revisions: facts.revisions,
        active_epoch: facts.active_epoch,
        policies,
        keys,
        paths,
        valid_from_unix_ms,
        valid_until_unix_ms,
    };
    assert(inputs_of(ctx) == plan_inputs(*model, *facts, policies@, keys@, paths@, valid_from_unix_ms, valid_until_unix_ms));
    let plans = compile_plans(&ctx, &local, endpoints)?;
    proof {
        let ps = plan_pairs(endpoints@, local);
        let built = choose|built: Seq<AttestedEncryptionPathPlan>|
            #[trigger] plans_built_for(built, inputs_of(ctx), endpoints@, ps) && plans@.to_multiset() == built.to_multiset();
        crate::replay::lemma_every_build_disjoint(plans@, built, inputs_of(ctx), endpoints@, ps);
    }
    let failure_envelope = failure_envelope(&plans);
    let mut contract = AttestedEncryptionPathContract {
        schema_version: ATTESTED_ENCRYPTION_PATH_CONTRACT_SCHEMA_VERSION,
        contract_revision,
        local_node: local,
        valid_from_unix_ms,
        valid_until_unix_ms,
        plans,
        verified_invariants: invariants_list(),
        failure_envelope,
        contract_digest: AttestedEncryptionContractDigest([0u8; 32]),
    };
    let d = contract.calculate_digest();
    contract.contract_digest = d;
    Ok(contract)
}

/// The endpoint checks made on canonical forms answer as the same checks on
/// the submitted facts.
proof fn lemma_canonical_endpoint_checks(
    canon: Seq<EncryptionEndpointFact>,
    eps: Seq<EncryptionEndpointFact>,
    local: EncryptionNode,
    input_local: EncryptionNode,
    cluster_id: Seq<char>,
)
    requires
        endpoints_canonical_of(canon, eps),
        node_canonical_of(local, input_local),
    ensures
        (exists|j: int| 0 <= j < canon.len() && (#[trigger] canon[j]).node.cluster_id@ != cluster_id)
            == cross_cluster_endpoint(eps, cluster_id),
        (exists|j: int|
            0 <= j < canon.len() && ((#[trigger] canon[j]).node.uid@ == local.uid@ && !node_same(canon[j].node, local)
                || canon[j].node.name@ == local.name@ && canon[j].node.uid@ != local.uid@)) == local_identity_conflict(
            eps,
            input_local,
        ),
{
    reveal(endpoint_drawn_from);
    reveal(endpoint_kept_in);
    if exists|j: int| 0 <= j < canon.len() && (#[trigger] canon[j]).node.cluster_id@ != cluster_id {
        let j = choose|j: int| 0 <= j < canon.len() && (#[trigger] canon[j]).node.cluster_id@ != cluster_id;
        assert(endpoint_drawn_from(canon[j], eps));
        let k = choose|k: int| 0 <= k < eps.len() && endpoint_canonical_of(canon[j], eps[k]);
        assert(eps[k].node.cluster_id@ != cluster_id);
    }
    if cross_cluster_endpoint(eps, cluster_id) {
        let k = choose|k: int| 0 <= k < eps.len() && (#[trigger] eps[k]).node.cluster_id@ != cluster_id;
        assert(endpoint_kept_in(eps[k], canon));
        let j = choose|j: int| 0 <= j < canon.len() && endpoint_canonical_of(canon[j], eps[k]);
        assert(canon[j].node.cluster_id@ != cluster_id);
    }
    if exists|j: int|
        0 <= j < canon.len() && ((#[trigger] canon[j]).node.uid@ == local.uid@ && !node_same(canon[j].node, local)
            || canon[j].node.name@ == local.name@ && canon[j].node.uid@ != local.uid@) {
        let j = choose|j: int|
            0 <= j < canon.len() && ((#[trigger] canon[j]).node.uid@ == local.uid@ && !node_same(canon[j].node, local)
                || canon[j].node.name@ == local.name@ && canon[j].node.uid@ != local.uid@);
        assert(endpoint_drawn_from(canon[j], eps));
        let k = choose|k: int| 0 <= k < eps.len() && endpoint_canonical_of(canon[j], eps[k]);
        lemma_canonical_node_same(canon[j].node, eps[k].node, local, input_local);
        assert(eps[k].node.uid@ == input_local.uid@ && !node_equiv(eps[k].node, input_local)
            || eps[k].node.name@ == input_local.name@ && eps[k].node.uid@ != input_local.uid@);
    }
    if local_identity_conflict(eps, input_local) {
        let k = choose|k: int|
            0 <= k < eps.len() && ((#[trigger] eps[k]).node.uid@ == input_local.uid@ && !node_equiv(eps[k].node, input_local)
                || eps[k].node.name@ == input_local.name@ && eps[k].node.uid@ != input_local.uid@);
        assert(endpoint_kept_in(eps[k], canon));
        let j = choose|j: int| 0 <= j < canon.len() && endpoint_canonical_of(canon[j], eps[k]);
        lemma_canonical_node_same(canon[j].node, eps[k].node, local, input_local);
        assert(canon[j].node.uid@ == local.uid@ && !node_same(canon[j].node, local)
            || canon[j].node.name@ == local.name@ && canon[j].node.uid@ != local.uid@);
    }
}

} // verus!

verus! {

pub open spec fn key_binding_same(a: EncryptionKeyBinding, b: EncryptionKeyBinding) -> bool {
    &&& a.node_uid@ == b.node_uid@
    &&& a.epoch == b.epoch
    &&& a.public_key.0@ == b.public_key.0@
    &&& a.public_key_digest.0@ == b.public_key_digest.0@
    &&& a.phase == b.phase
}

/// Field-wise equality of two plans.
pub open spec fn plan_same(a: AttestedEncryptionPathPlan, b: AttestedEncryptionPathPlan) -> bool {
    &&& endpoint_same(a.source, b.source)
    &&& endpoint_same(a.destination, b.destination)
    &&& a.disposition == b.disposition
    &&& crate::text::texts_view(a.intent_uids@) == crate::text::texts_view(b.intent_uids@)
    &&& a.policy.policy_ids@ == b.policy.policy_ids@
    &&& a.policy.revision == b.policy.revision
    &&& key_binding_same(a.source_key, b.source_key)
    &&& key_binding_same(a.destination_key, b.destination_key)
    &&& path_same(a.transport.forward, b.transport.forward)
    &&& path_same(a.transport.reverse, b.transport.reverse)
    &&& a.revisions == b.revisions
}

pub open spec fn observation_same(a: EncryptionFailureObservation, b: EncryptionFailureObservation) -> bool {
    &&& a.source == b.source
    &&& a.source_workload_uid@ == b.source_workload_uid@
    &&& a.destination == b.destination
    &&& a.destination_workload_uid@ == b.destination_workload_uid@
    &&& a.class == b.class
    &&& a.outcome == b.outcome
}

pub open spec fn envelope_same(a: EncryptionFailureEnvelope, b: EncryptionFailureEnvelope) -> bool {
    &&& a.observations@.len() == b.observations@.len()
    &&& forall|k: int| 0 <= k < a.observations@.len() ==> observation_same(#[trigger] a.observations@[k], b.observations@[k])
    &&& a.total_observations == b.total_observations
    &&& a.truncated == b.truncated
}

/// Field-wise equality of two contracts.
pub open spec fn contract_same(a: AttestedEncryptionPathContract, b: AttestedEncryptionPathContract) -> bool {
    &&& a.schema_version == b.schema_version
    &&& a.contract_revision == b.contract_revision
    &&& node_same(a.local_node, b.local_node)
    &&& a.valid_from_unix_ms == b.valid_from_unix_ms
    &&& a.valid_until_unix_ms == b.valid_until_unix_ms
    &&& a.plans@.len() == b.plans@.len()
    &&& forall|k: int| 0 <= k < a.plans@.len() ==> plan_same(#[trigger] a.plans@[k], b.plans@[k])
    &&& a.verified_invariants@ == b.verified_invariants@
    &&& envelope_same(a.failure_envelope, b.failure_envelope)
    &&& a.contract_digest.0@ == b.contract_digest.0@
}

fn endpoint_equal(a: &EncryptionEndpointFact, b: &EncryptionEndpointFact) -> (r: bool)
    ensures
        r == endpoint_same(*a, *b),
{
    a.identity.0 == b.identity.0 && text_eq(a.workload_uid.as_str(), b.workload_uid.as_str()) && node_equal(
        &a.node,
        &b.node,
    )
}

fn key_binding_equal(a: &EncryptionKeyBinding, b: &EncryptionKeyBinding) -> (r: bool)
    ensures
        r == key_binding_same(*a, *b),
{
    text_eq(a.node_uid.as_str(), b.node_uid.as_str()) && a.epoch == b.epoch && crate::digest::bytes32_eq(
        &a.public_key.0,
        &b.public_key.0,
    ) && crate::digest::bytes32_eq(&a.public_key_digest.0, &b.public_key_digest.0) && a.phase == b.phase
}

fn path_equal(a: &EncryptionPathFact, b: &EncryptionPathFact) -> (r: bool)
    ensures
        r == path_same(*a, *b),
{
    text_eq(a.source_node_uid.as_str(), b.source_node_uid.as_str()) && text_eq(
        a.destination_node_uid.as_str(),
        b.destination_node_uid.as_str(),
    ) && a.epoch == b.epoch && a.path_class == b.path_class && a.peer_endpoint == b.peer_endpoint
        && prefixes_equal(&a.allowed_ips, &b.allowed_ips) && text_eq(
        a.interface_name.as_str(),
        b.interface_name.as_str(),
    ) && a.route_table == b.route_table && a.fwmark == b.fwmark && a.mtu == b.mtu
}

fn policy_ids_equal(a: &Vec<PolicyId>, b: &Vec<PolicyId>) -> (r: bool)
    ensures
        r == (a@ == b@),
{
    if a.len() != b.len() {
        return false;
    }
    let mut same = true;
    let mut i: usize = 0;
    while i < a.len()
        invariant
            a@.len() == b@.len(),
            i <= a@.len(),
            same == forall|j: int| 0 <= j < i ==> a@[j] == b@[j],
        decreases a@.len() - i,
    {
        if a[i].0 != b[i].0 {
            same = false;
        }
        i = i + 1;
    }
    proof {
        if same {
            assert(a@ =~= b@);
        }
    }
    same
}

fn plan_equal(a: &AttestedEncryptionPathPlan, b: &AttestedEncryptionPathPlan) -> (r: bool)
    ensures
        r == plan_same(*a, *b),
{
    endpoint_equal(&a.source, &b.source) && endpoint_equal(&a.destination, &b.destination) && a.disposition
        == b.disposition && crate::text::texts_equal(&a.intent_uids, &b.intent_uids) && policy_ids_equal(
        &a.policy.policy_ids,
        &b.policy.policy_ids,
    ) && a.policy.revision.0 == b.policy.revision.0 && key_binding_equal(&a.source_key, &b.source_key)
        && key_binding_equal(&a.destination_key, &b.destination_key) && path_equal(
        &a.transport.forward,
        &b.transport.forward,
    ) && path_equal(&a.transport.reverse, &b.transport.reverse) && a.revisions == b.revisions
}

fn envelope_equal(a: &EncryptionFailureEnvelope, b: &EncryptionFailureEnvelope) -> (r: bool)
    ensures
        r == envelope_same(*a, *b),
{
    if a.observations.len() != b.observations.len() || a.total_observations != b.total_observations
        || a.truncated != b.truncated {
        return false;
    }
    let mut same = true;
    let mut i: usize = 0;
    while i < a.observations.len()
        invariant
            a.observations@.len() == b.observations@.len(),
            i <= a.observations@.len(),
            same == forall|j: int| 0 <= j < i ==> observation_same(#[trigger] a.observations@[j], b.observations@[j]),
        decreases a.observations@.len() - i,
    {
        let x = &a.observations[i];
        let y = &b.observations[i];
        if !(x.source.0 == y.source.0 && text_eq(x.source_workload_uid.as_str(), y.source_workload_uid.as_str())
            && x.destination.0 == y.destination.0 && text_eq(
            x.destination_workload_uid.as_str(),
            y.destination_workload_uid.as_str(),
        ) && x.class == y.class && x.outcome == y.outcome) {
            same = false;
        }
        i = i + 1;
    }
    same
}

fn invariants_equal(a: &Vec<EncryptionInvariant>, b: &Vec<EncryptionInvariant>) -> (r: bool)
    ensures
        r == (a@ == b@),
{
    if a.len() != b.len() {
        return false;
    }
    let mut same = true;
    let mut i: usize = 0;
    while i < a.len()
        invariant
            a@.len() == b@.len(),
            i <= a@.len(),
            same == forall|j: int| 0 <= j < i ==> a@[j] == b@[j],
        decreases a@.len() - i,
    {
        if a[i] != b[i] {
            same = false;
        }
        i = i + 1;
    }
    proof {
        if same {
            assert(a@ =~= b@);
        }
    }
    same
}

pub fn contract_equal(a: &AttestedEncryptionPathContract, b: &AttestedEncryptionPathContract) -> (r: bool)
    ensures
        r == contract_same(*a, *b),
{
    if a.schema_version != b.schema_version || a.contract_revision.0 != b.contract_revision.0 || !node_equal(
        &a.local_node,
        &b.local_node,
    ) || a.valid_from_unix_ms != b.valid_from_unix_ms || a.valid_until_unix_ms != b.valid_until_unix_ms
        || a.plans.len() != b.plans.len() || !invariants_equal(&a.verified_invariants, &b.verified_invariants)
        || !envelope_equal(&a.failure_envelope, &b.failure_envelope) || !crate::digest::bytes32_eq(
        &a.contract_digest.0,
        &b.contract_digest.0,
    ) {
        return false;
    }
    let mut same = true;
    let mut i: usize = 0;
    while i < a.plans.len()
        invariant
            a.plans@.len() == b.plans@.len(),
            i <= a.plans@.len(),
            same == forall|j: int| 0 <= j < i ==> plan_same(#[trigger] a.plans@[j], b.plans@[j]),
        decreases a.plans@.len() - i,
    {
        if !plan_equal(&a.plans[i], &b.plans[i]) {
            same = false;
        }
        i = i + 1;
    }
    same
}

} // verus!

verus! {

pub const DECISION_WITNESS_DOMAIN: &'static str = "unf.encryption-decision-witness.v1";

/// What the decision witness of a plan commits to.
pub open spec fn witness_material(p: AttestedEncryptionPathPlan) -> Seq<u8> {
    crate::digest::u32_bytes(p.source.identity.0) + crate::digest::text_bytes(p.source.workload_uid@)
        + crate::digest::u32_bytes(p.destination.identity.0) + crate::digest::text_bytes(p.destination.workload_uid@)
        + crate::digest::text_bytes(p.source.node.uid@) + crate::digest::text_bytes(p.destination.node.uid@)
        + crate::digest::u64_bytes(p.source_key.epoch) + crate::digest::u32_bytes(p.transport.forward.route_table)
        + crate::digest::u32_bytes(p.transport.forward.fwmark) + p.revisions.enc()
}

/// The witness: the first 16 bytes of the digest of the contract digest and
/// the plan's material.
pub open spec fn witness_spec(c: AttestedEncryptionPathContract, i: int) -> Seq<u8> {
    crate::digest::sha256_spec(
        crate::digest::text_bytes(DECISION_WITNESS_DOMAIN@) + c.contract_digest.0@ + witness_material(c.plans@[i]),
    ).subrange(0, 16)
}

/// `r` is what verifying `c` against these inputs answers: an unsupported
/// schema, or else the replayed compilation's error, or whether `c` agrees
/// with the replayed contract field by field.
pub open spec fn replayed_as(
    c: AttestedEncryptionPathContract,
    model: crate::model::EncryptionModel,
    facts: EncryptionContractFacts,
    local: EncryptionNode,
    r: Result<(), EncryptionContractError>,
) -> bool {
    &&& c.schema_version != ATTESTED_ENCRYPTION_PATH_CONTRACT_SCHEMA_VERSION ==> r == Err::<(), EncryptionContractError>(
        EncryptionContractError::UnsupportedSchema {
            actual: c.schema_version,
            expected: ATTESTED_ENCRYPTION_PATH_CONTRACT_SCHEMA_VERSION,
        },
    )
    &&& c.schema_version == ATTESTED_ENCRYPTION_PATH_CONTRACT_SCHEMA_VERSION ==> exists|
        replay: Result<AttestedEncryptionPathContract, EncryptionContractError>,
    |
        #[trigger] issued_as(replay, model, facts, local, c.contract_revision, c.valid_from_unix_ms, c.valid_until_unix_ms)
            && match replay {
            Err(e) => r == Err::<(), EncryptionContractError>(e),
            Ok(x) => if contract_same(c, x) {
                r is Ok
            } else {
                r == Err::<(), EncryptionContractError>(EncryptionContractError::ReplayMismatch)
            },
        }
}

impl AttestedEncryptionPathContract {
    /// Issues one canonical exact-source-Node contract from complete facts.
    pub fn issue(
        model: &crate::model::EncryptionModel,
        facts: &EncryptionContractFacts,
        local_node: EncryptionNode,
        contract_revision: Revision,
        valid_from_unix_ms: u64,
        valid_until_unix_ms: u64,
    ) -> (r: Result<Self, EncryptionContractError>)
        ensures
            issued_as(r, *model, *facts, local_node, contract_revision, valid_from_unix_ms, valid_until_unix_ms),
    {
        compile_contract(model, facts, &local_node, contract_revision, valid_from_unix_ms, valid_until_unix_ms)
    }

    /// Independently replays all model and fact inputs and compares every
    /// field.
    pub fn verify(
        &self,
        model: &crate::model::EncryptionModel,
        facts: &EncryptionContractFacts,
        local_node: &EncryptionNode,
    ) -> (r: Result<(), EncryptionContractError>)
        ensures
            replayed_as(*self, *model, *facts, *local_node, r),
    {
        if self.schema_version != ATTESTED_ENCRYPTION_PATH_CONTRACT_SCHEMA_VERSION {
            return Err(
                EncryptionContractError::UnsupportedSchema {
                    actual: self.schema_version,
                    expected: ATTESTED_ENCRYPTION_PATH_CONTRACT_SCHEMA_VERSION,
                },
            );
        }
        let replay = compile_contract(
            model,
            facts,
            local_node,
            self.contract_revision,
            self.valid_from_unix_ms,
            self.valid_until_unix_ms,
        );
        let ghost replayed = replay;
        let expected = match replay {
            Err(e) => {
                return Err(e);
            },
            Ok(c) => c,
        };
        if !contract_equal(self, &expected) {
            return Err(EncryptionContractError::ReplayMismatch);
        }
        Ok(())
    }

    /// Verifies the self-contained commitment, for corruption detection of
    /// durable state. Fresh activation still requires [`Self::verify`].
    pub fn verify_integrity(&self) -> (r: Result<(), EncryptionContractError>)
        ensures
            self.schema_version != ATTESTED_ENCRYPTION_PATH_CONTRACT_SCHEMA_VERSION ==> r == Err::<
                (),
                EncryptionContractError,
            >(
                EncryptionContractError::UnsupportedSchema {
                    actual: self.schema_version,
                    expected: ATTESTED_ENCRYPTION_PATH_CONTRACT_SCHEMA_VERSION,
                },
            ),
            self.schema_version == ATTESTED_ENCRYPTION_PATH_CONTRACT_SCHEMA_VERSION ==> (r is Ok
                <==> self.contract_digest.0@ == contract_digest_spec(*self)),
            self.schema_version == ATTESTED_ENCRYPTION_PATH_CONTRACT_SCHEMA_VERSION && r is Err ==> r == Err::<
                (),
                EncryptionContractError,
            >(EncryptionContractError::ReplayMismatch),
    {
        if self.schema_version != ATTESTED_ENCRYPTION_PATH_CONTRACT_SCHEMA_VERSION {
            return Err(
                EncryptionContractError::UnsupportedSchema {
                    actual: self.schema_version,
                    expected: ATTESTED_ENCRYPTION_PATH_CONTRACT_SCHEMA_VERSION,
                },
            );
        }
        let expected = self.calculate_digest();
        if !crate::digest::bytes32_eq(&self.contract_digest.0, &expected.0) {
            return Err(EncryptionContractError::ReplayMismatch);
        }
        Ok(())
    }

    /// Derives compact provenance for one exact plan; it resolves only with
    /// the retained full contract.
    pub fn decision_witness(&self, plan_index: usize) -> (r: Result<EncryptionDecisionWitness, EncryptionContractError>)
        ensures
            plan_index >= self.plans@.len() ==> r == Err::<EncryptionDecisionWitness, EncryptionContractError>(
                EncryptionContractError::UnknownWitnessSelection,
            ),
            plan_index < self.plans@.len() ==> (r matches Ok(w) && w.0@ == witness_spec(*self, plan_index as int)),
    {
        if plan_index >= self.plans.len() {
            return Err(EncryptionContractError::UnknownWitnessSelection);
        }
        let plan = &self.plans[plan_index];
        let mut m: Vec<u8> = Vec::new();
        crate::digest::push_text(&mut m, DECISION_WITNESS_DOMAIN);
        crate::digest::push_raw32(&mut m, &self.contract_digest.0);
        crate::digest::push_u32(&mut m, plan.source.identity.0);
        crate::digest::push_text(&mut m, plan.source.workload_uid.as_str());
        crate::digest::push_u32(&mut m, plan.destination.identity.0);
        crate::digest::push_text(&mut m, plan.destination.workload_uid.as_str());
        crate::digest::push_text(&mut m, plan.source.node.uid.as_str());
        crate::digest::push_text(&mut m, plan.destination.node.uid.as_str());
        crate::digest::push_u64(&mut m, plan.source_key.epoch);
        crate::digest::push_u32(&mut m, plan.transport.forward.route_table);
        crate::digest::push_u32(&mut m, plan.transport.forward.fwmark);
        plan.revisions.push_enc(&mut m);
        assert(m@ =~= crate::digest::text_bytes(DECISION_WITNESS_DOMAIN@) + self.contract_digest.0@ + witness_material(
            self.plans@[plan_index as int],
        ));
        let digest = crate::digest::sha256(&m);
        let mut witness = [0u8; 16];
        let mut i: usize = 0;
        while i < 16
            invariant
                i <= 16,
                digest@.len() == 32,
                forall|k: int| 0 <= k < i ==> witness@[k] == digest@[k],
            decreases 16 - i,
        {
            witness.set(i, digest[i]);
            i = i + 1;
        }
        assert(witness@ =~= digest@.subrange(0, 16));
        Ok(EncryptionDecisionWitness(witness))
    }
}

} // verus!
