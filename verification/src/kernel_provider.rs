//! The WireGuard kernel provider contract: capability negotiation and the
//! dual-stack-safe MTU envelope of one transport group.

use vstd::prelude::*;
use crate::text::{bounded_text, is_bounded_text};

verus! {

pub const WIREGUARD_KERNEL_PROVIDER_SCHEMA_VERSION: u16 = 3;
pub const WIREGUARD_KERNEL_SNAPSHOT_SCHEMA_VERSION: u16 = 3;
pub const PROOF_CARRYING_KERNEL_TRANSACTION_SCHEMA_VERSION: u16 = 1;
pub const MAX_WIREGUARD_PEERS: usize = 4096;
pub const MAX_WIREGUARD_ALLOWED_IPS: usize = 65536;
pub const MAX_UNDERLAY_MTU_OBSERVATIONS: usize = 65536;
pub const WIREGUARD_IPV4_OVERHEAD: u32 = 60;
pub const WIREGUARD_IPV6_OVERHEAD: u32 = 80;
pub const MIN_WIREGUARD_MTU: u32 = 1280;
pub const MAX_WIREGUARD_MTU: u32 = 9216;
pub const UNF_WIREGUARD_ROUTE_PROTOCOL: u8 = 0x55;
pub const MAX_WIREGUARD_INTERFACE_NAME_BYTES: usize = 15;
pub const MAX_WIREGUARD_OWNER_ALIAS_BYTES: usize = 255;
pub const MAX_TEXT_BYTES: usize = 253;

#[derive(Clone, Copy, Debug, PartialEq, Eq, Structural)]
pub enum WireGuardKernelCapability {
    GenericNetlinkV1,
    ReplacePeersAtomically,
    ExactAllowedIpReadback,
    DualStackRoutes,
    LinkOwnershipAlias,
    InactiveEpochStaging,
    ExactProofBeaconAddresses,
    ExactIpv4ReversePathAcceptance,
}

/// What applying a kernel plan did.
#[derive(Debug, Clone, Copy, PartialEq, Eq, Structural)]
pub enum KernelApplyOutcome {
    Created,
    AlreadyExact,
}

/// What deleting a kernel plan's interface did.
#[derive(Debug, Clone, Copy, PartialEq, Eq, Structural)]
pub enum KernelDeleteOutcome {
    Deleted,
    AlreadyAbsent,
}

#[derive(Debug)]
pub enum WireGuardKernelError {
    InvalidProviderCapabilities,
    IncompatibleProviderSchema,
    MissingProviderCapability,
    InvalidMtuEnvelope,
    UnsupportedProviderSchema(u16),
    InvalidPlan,
    CapacityExceeded,
    AmbiguousAllowedIp,
    PlanDigestMismatch,
    PrivateKeyMismatch,
    ReadbackMismatch,
    ForeignState(String),
    Absent,
    InvalidTransaction,
    Kernel { operation: &'static str, message: String },
    Rollback { cause: String, rollback: String },
    CanonicalEncoding(String),
}

/// The position of a capability in declaration order.
pub open spec fn capability_rank(c: WireGuardKernelCapability) -> int {
    match c {
        WireGuardKernelCapability::GenericNetlinkV1 => 0,
        WireGuardKernelCapability::ReplacePeersAtomically => 1,
        WireGuardKernelCapability::ExactAllowedIpReadback => 2,
        WireGuardKernelCapability::DualStackRoutes => 3,
        WireGuardKernelCapability::LinkOwnershipAlias => 4,
        WireGuardKernelCapability::InactiveEpochStaging => 5,
        WireGuardKernelCapability::ExactProofBeaconAddresses => 6,
        WireGuardKernelCapability::ExactIpv4ReversePathAcceptance => 7,
    }
}

/// The set of capabilities that a list names.
pub open spec fn capability_set(v: Seq<WireGuardKernelCapability>) -> Set<WireGuardKernelCapability> {
    v.to_set()
}

/// A canonical capability list: strictly increasing in declaration order.
pub open spec fn capabilities_canonical(v: Seq<WireGuardKernelCapability>) -> bool {
    forall|a: int, b: int| 0 <= a < b < v.len() ==> capability_rank(#[trigger] v[a]) < capability_rank(#[trigger] v[b])
}

/// Every capability, in declaration order.
pub open spec fn all_capabilities() -> Seq<WireGuardKernelCapability> {
    seq![
        WireGuardKernelCapability::GenericNetlinkV1,
        WireGuardKernelCapability::ReplacePeersAtomically,
        WireGuardKernelCapability::ExactAllowedIpReadback,
        WireGuardKernelCapability::DualStackRoutes,
        WireGuardKernelCapability::LinkOwnershipAlias,
        WireGuardKernelCapability::InactiveEpochStaging,
        WireGuardKernelCapability::ExactProofBeaconAddresses,
        WireGuardKernelCapability::ExactIpv4ReversePathAcceptance,
    ]
}

proof fn lemma_all_capabilities(c: WireGuardKernelCapability)
    ensures
        all_capabilities().contains(c),
        all_capabilities()[capability_rank(c)] == c,
{
    assert(all_capabilities()[capability_rank(c)] == c);
}

/// The capabilities a provider must keep through negotiation: all of them.
pub fn required_capabilities() -> (r: Vec<WireGuardKernelCapability>)
    ensures
        r@ == all_capabilities(),
        capabilities_canonical(r@),
        forall|c: WireGuardKernelCapability| capability_set(r@).contains(c),
{
    let r = vec![
        WireGuardKernelCapability::GenericNetlinkV1,
        WireGuardKernelCapability::ReplacePeersAtomically,
        WireGuardKernelCapability::ExactAllowedIpReadback,
        WireGuardKernelCapability::DualStackRoutes,
        WireGuardKernelCapability::LinkOwnershipAlias,
        WireGuardKernelCapability::InactiveEpochStaging,
        WireGuardKernelCapability::ExactProofBeaconAddresses,
        WireGuardKernelCapability::ExactIpv4ReversePathAcceptance,
    ];
    proof {
        assert(r@ =~= all_capabilities());
        assert forall|c: WireGuardKernelCapability| capability_set(r@).contains(c) by {
            lemma_all_capabilities(c);
        }
    }
    r
}

#[derive(Clone, Debug)]
pub struct WireGuardProviderCapabilities {
    pub minimum_schema: u16,
    pub maximum_schema: u16,
    pub maximum_peers: u32,
    pub maximum_allowed_ips: u32,
    /// The offered capabilities, as a set.
    pub capabilities: Vec<WireGuardKernelCapability>,
}

#[derive(Clone, Debug)]
pub struct NegotiatedWireGuardProvider {
    pub schema_version: u16,
    pub maximum_peers: u32,
    pub maximum_allowed_ips: u32,
    /// The common capabilities, in declaration order.
    pub capabilities: Vec<WireGuardKernelCapability>,
}

pub open spec fn provider_ok(p: WireGuardProviderCapabilities) -> bool {
    &&& p.minimum_schema != 0
    &&& p.minimum_schema <= p.maximum_schema
    &&& 0 < p.maximum_peers <= MAX_WIREGUARD_PEERS
    &&& 0 < p.maximum_allowed_ips <= MAX_WIREGUARD_ALLOWED_IPS
}

pub open spec fn min_u32(a: u32, b: u32) -> u32 {
    if a <= b {
        a
    } else {
        b
    }
}

pub open spec fn max_u16(a: u16, b: u16) -> u16 {
    if a >= b {
        a
    } else {
        b
    }
}

pub open spec fn min_u16(a: u16, b: u16) -> u16 {
    if a <= b {
        a
    } else {
        b
    }
}

fn contains_capability(v: &Vec<WireGuardKernelCapability>, c: WireGuardKernelCapability) -> (r: bool)
    ensures
        r == v@.contains(c),
{
    let mut i: usize = 0;
    while i < v.len()
        invariant
            i <= v@.len(),
            forall|j: int| 0 <= j < i ==> v@[j] != c,
        decreases v@.len() - i,
    {
        if v[i] == c {
            return true;
        }
        i = i + 1;
    }
    false
}

impl WireGuardProviderCapabilities {
    /// This build's provider: schema 3 only, 4096 peers, 65536 allowed IPs,
    /// and every capability.
    pub fn current() -> (r: Self)
        ensures
            r.minimum_schema == WIREGUARD_KERNEL_PROVIDER_SCHEMA_VERSION,
            r.maximum_schema == WIREGUARD_KERNEL_PROVIDER_SCHEMA_VERSION,
            r.maximum_peers == 4096,
            r.maximum_allowed_ips == 65536,
            r.capabilities@ == all_capabilities(),
            provider_ok(r),
    {
        WireGuardProviderCapabilities {
            minimum_schema: WIREGUARD_KERNEL_PROVIDER_SCHEMA_VERSION,
            maximum_schema: WIREGUARD_KERNEL_PROVIDER_SCHEMA_VERSION,
            maximum_peers: 4096,
            maximum_allowed_ips: 65536,
            capabilities: required_capabilities(),
        }
    }

    pub fn validate(&self) -> (r: Result<(), WireGuardKernelError>)
        ensures
            r is Ok <==> provider_ok(*self),
            r is Err ==> r->Err_0 is InvalidProviderCapabilities,
    {
        if self.minimum_schema == 0 || self.minimum_schema > self.maximum_schema
            || self.maximum_peers == 0 || self.maximum_peers as usize > MAX_WIREGUARD_PEERS
            || self.maximum_allowed_ips == 0 || self.maximum_allowed_ips as usize
            > MAX_WIREGUARD_ALLOWED_IPS {
            return Err(WireGuardKernelError::InvalidProviderCapabilities);
        }
        Ok(())
    }

    /// Negotiates the newest common schema without silently losing a required
    /// kernel capability.
    pub fn negotiate(&self, remote: &Self) -> (r: Result<NegotiatedWireGuardProvider, WireGuardKernelError>)
        ensures
            r is Ok <==> provider_ok(*self) && provider_ok(*remote) && max_u16(
                self.minimum_schema,
                remote.minimum_schema,
            ) <= min_u16(self.maximum_schema, remote.maximum_schema) && forall|
                c: WireGuardKernelCapability,
            | self.capabilities@.contains(c) && remote.capabilities@.contains(c),
            !(provider_ok(*self) && provider_ok(*remote)) ==> (r is Err
                && r->Err_0 is InvalidProviderCapabilities),
            provider_ok(*self) && provider_ok(*remote) && max_u16(
                self.minimum_schema,
                remote.minimum_schema,
            ) > min_u16(self.maximum_schema, remote.maximum_schema) ==> (r is Err
                && r->Err_0 is IncompatibleProviderSchema),
            provider_ok(*self) && provider_ok(*remote) && max_u16(self.minimum_schema, remote.minimum_schema)
                <= min_u16(self.maximum_schema, remote.maximum_schema) && !(forall|c: WireGuardKernelCapability|
                self.capabilities@.contains(c) && remote.capabilities@.contains(c)) ==> r
                == Err::<NegotiatedWireGuardProvider, WireGuardKernelError>(
                WireGuardKernelError::MissingProviderCapability,
            ),
            r matches Ok(n) ==> {
                &&& n.schema_version == min_u16(self.maximum_schema, remote.maximum_schema)
                &&& n.maximum_peers == min_u32(self.maximum_peers, remote.maximum_peers)
                &&& n.maximum_allowed_ips == min_u32(
                    self.maximum_allowed_ips,
                    remote.maximum_allowed_ips,
                )
                &&& n.capabilities@ == all_capabilities()
            },
    {
        self.validate()?;
        remote.validate()?;
        let minimum = if self.minimum_schema >= remote.minimum_schema {
            self.minimum_schema
        } else {
            remote.minimum_schema
        };
        let maximum = if self.maximum_schema <= remote.maximum_schema {
            self.maximum_schema
        } else {
            remote.maximum_schema
        };
        if minimum > maximum {
            return Err(WireGuardKernelError::IncompatibleProviderSchema);
        }
        let all = required_capabilities();
        let mut common: Vec<WireGuardKernelCapability> = Vec::new();
        let mut i: usize = 0;
        while i < all.len()
            invariant
                all@ == all_capabilities(),
                i <= all@.len(),
                forall|j: int|
                    0 <= j < common@.len() ==> self.capabilities@.contains(#[trigger] common@[j])
                        && remote.capabilities@.contains(common@[j]),
                forall|j: int|
                    0 <= j < i ==> (self.capabilities@.contains(#[trigger] all@[j])
                        && remote.capabilities@.contains(all@[j])) == common@.contains(all@[j]),
                common@.len() <= i,
                forall|j: int| 0 <= j < common@.len() ==> capability_rank(#[trigger] common@[j]) < i,
                capabilities_canonical(common@),
            decreases all@.len() - i,
        {
            let c = all[i];
            if contains_capability(&self.capabilities, c) && contains_capability(
                &remote.capabilities,
                c,
            ) {
                let ghost before = common@;
                common.push(c);
                proof {
                    assert(capability_rank(c) == i);
                    assert forall|j: int| 0 <= j < i + 1 implies (self.capabilities@.contains(
                        #[trigger] all@[j],
                    ) && remote.capabilities@.contains(all@[j])) == common@.contains(all@[j]) by {
                        if j < i {
                            assert(capability_rank(all@[j]) == j);
                            if common@.contains(all@[j]) {
                                let k = choose|k: int| 0 <= k < common@.len() && common@[k] == all@[j];
                                if k < before.len() {
                                    assert(before[k] == all@[j]);
                                } else {
                                    assert(capability_rank(common@[k]) == i);
                                }
                            }
                            if before.contains(all@[j]) {
                                let k = choose|k: int| 0 <= k < before.len() && before[k] == all@[j];
                                assert(common@[k] == all@[j]);
                            }
                        } else {
                            assert(common@[before.len() as int] == c);
                        }
                    }
                }
            } else {
                proof {
                    assert(capability_rank(c) == i);
                    assert forall|j: int| 0 <= j < i + 1 implies (self.capabilities@.contains(
                        #[trigger] all@[j],
                    ) && remote.capabilities@.contains(all@[j])) == common@.contains(all@[j]) by {
                        if j == i {
                            if common@.contains(c) {
                                let k = choose|k: int| 0 <= k < common@.len() && common@[k] == c;
                                assert(capability_rank(common@[k]) < i);
                            }
                        }
                    }
                }
            }
            i = i + 1;
        }
        if common.len() != all.len() {
            proof {
                if forall|c: WireGuardKernelCapability|
                    self.capabilities@.contains(c) && remote.capabilities@.contains(c) {
                    assert forall|j: int| 0 <= j < 8 implies common@.contains(
                        #[trigger] all_capabilities()[j],
                    ) by {
                        assert(all@[j] == all_capabilities()[j]);
                        assert(self.capabilities@.contains(all@[j]) && remote.capabilities@.contains(all@[j]));
                    }
                    lemma_canonical_contains_all(common@);
                }
            }
            return Err(WireGuardKernelError::MissingProviderCapability);
        }
        proof {
            lemma_canonical_full(common@);
            assert forall|c: WireGuardKernelCapability| self.capabilities@.contains(c)
                && remote.capabilities@.contains(c) by {
                lemma_all_capabilities(c);
                assert(common@.contains(all@[capability_rank(c)]));
                let k = choose|k: int| 0 <= k < common@.len() && common@[k] == all@[capability_rank(c)];
            }
        }
        Ok(
            NegotiatedWireGuardProvider {
                schema_version: maximum,
                maximum_peers: if self.maximum_peers <= remote.maximum_peers {
                    self.maximum_peers
                } else {
                    remote.maximum_peers
                },
                maximum_allowed_ips: if self.maximum_allowed_ips <= remote.maximum_allowed_ips {
                    self.maximum_allowed_ips
                } else {
                    remote.maximum_allowed_ips
                },
                capabilities: common,
            },
        )
    }
}

/// A canonical list naming every capability has all eight.
proof fn lemma_canonical_contains_all(v: Seq<WireGuardKernelCapability>)
    requires
        capabilities_canonical(v),
        forall|j: int| 0 <= j < 8 ==> v.contains(#[trigger] all_capabilities()[j]),
    ensures
        v.len() == 8,
{
    lemma_canonical_full(v);
    let a = all_capabilities();
    assert(a.no_duplicates()) by {
        assert forall|i: int, j: int| 0 <= i < a.len() && 0 <= j < a.len() && i != j implies a[i] != a[j] by {
            lemma_all_capabilities(a[i]);
            lemma_all_capabilities(a[j]);
        }
    }
    assert(v.no_duplicates()) by {
        assert forall|i: int, j: int| 0 <= i < v.len() && 0 <= j < v.len() && i != j implies v[i] != v[j] by {
            if i < j {
                assert(capability_rank(v[i]) < capability_rank(v[j]));
            } else {
                assert(capability_rank(v[j]) < capability_rank(v[i]));
            }
        }
    }
    a.unique_seq_to_set();
    v.unique_seq_to_set();
    assert forall|c: WireGuardKernelCapability| a.to_set().contains(c) implies v.to_set().contains(c) by {
        let j = choose|j: int| 0 <= j < a.len() && a[j] == c;
        assert(v.contains(a[j]));
    }
    vstd::seq_lib::seq_to_set_is_finite(v);
    vstd::set_lib::lemma_len_subset(a.to_set(), v.to_set());
}

/// A canonical capability list of all eight capabilities is the full list.
proof fn lemma_canonical_full(v: Seq<WireGuardKernelCapability>)
    requires
        capabilities_canonical(v),
    ensures
        v.len() <= 8,
        v.len() == 8 ==> v == all_capabilities(),
{
    assert forall|k: int| 0 <= k < v.len() implies k <= capability_rank(#[trigger] v[k]) <= 7 - (v.len() - 1 - k) by {
        lemma_rank_lower(v, k);
        lemma_rank_upper(v, k);
    }
    if v.len() > 8 {
        assert(0 <= capability_rank(v[8]) <= 7);
    }
    if v.len() == 8 {
        assert forall|k: int| 0 <= k < 8 implies v[k] == all_capabilities()[k] by {
            assert(capability_rank(v[k]) == k);
            lemma_all_capabilities(v[k]);
        }
        assert(v =~= all_capabilities());
    }
}

proof fn lemma_rank_lower(v: Seq<WireGuardKernelCapability>, k: int)
    requires
        capabilities_canonical(v),
        0 <= k < v.len(),
    ensures
        k <= capability_rank(v[k]),
    decreases k,
{
    if k > 0 {
        lemma_rank_lower(v, k - 1);
        assert(capability_rank(v[k - 1]) < capability_rank(v[k]));
    }
}

proof fn lemma_rank_upper(v: Seq<WireGuardKernelCapability>, k: int)
    requires
        capabilities_canonical(v),
        0 <= k < v.len(),
    ensures
        capability_rank(v[k]) <= 7 - (v.len() - 1 - k),
    decreases v.len() - k,
{
    if k < v.len() - 1 {
        lemma_rank_upper(v, k + 1);
        assert(capability_rank(v[k]) < capability_rank(v[k + 1]));
    }
}

} // verus!

verus! {

#[derive(Clone, Copy, Debug, PartialEq, Eq, Structural)]
pub enum UnderlayAddressFamily {
    Ipv4,
    Ipv6,
}

#[derive(Clone, Debug)]
pub struct UnderlayMtuObservation {
    pub peer_node_uid: String,
    pub family: UnderlayAddressFamily,
    pub underlay_mtu: u32,
}

/// The largest safe common MTU of one coalesced transport group, naming the
/// observation that limits it.
#[derive(Clone, Debug)]
pub struct WireGuardMtuEnvelope {
    pub interface_mtu: u32,
    pub limiting_peer_node_uid: String,
    pub limiting_family: UnderlayAddressFamily,
    pub limiting_underlay_mtu: u32,
    pub encapsulation_overhead: u32,
    pub observations: Vec<UnderlayMtuObservation>,
}

/// Bounded kernel-plan text: nonempty, at most 253 bytes, no control
/// characters.
pub open spec fn kernel_text(s: Seq<char>) -> bool {
    bounded_text(s, MAX_TEXT_BYTES as nat)
}

pub fn validate_text(value: &str) -> (r: bool)
    ensures
        r == kernel_text(value@),
{
    is_bounded_text(value, MAX_TEXT_BYTES)
}

pub open spec fn family_rank(f: UnderlayAddressFamily) -> int {
    match f {
        UnderlayAddressFamily::Ipv4 => 0,
        UnderlayAddressFamily::Ipv6 => 1,
    }
}

/// The WireGuard encapsulation overhead over an underlay family.
pub open spec fn family_overhead(f: UnderlayAddressFamily) -> u32 {
    match f {
        UnderlayAddressFamily::Ipv4 => WIREGUARD_IPV4_OVERHEAD,
        UnderlayAddressFamily::Ipv6 => WIREGUARD_IPV6_OVERHEAD,
    }
}

/// The MTU left inside the tunnel over one observed underlay path.
pub open spec fn tunnel_mtu(o: UnderlayMtuObservation) -> int {
    o.underlay_mtu - family_overhead(o.family)
}

/// Canonical observation order: by peer UID, then family, then MTU.
pub open spec fn observation_lt(a: UnderlayMtuObservation, b: UnderlayMtuObservation) -> bool {
    ||| crate::text::text_lt(a.peer_node_uid@, b.peer_node_uid@)
    ||| a.peer_node_uid@ == b.peer_node_uid@ && family_rank(a.family) < family_rank(b.family)
    ||| a.peer_node_uid@ == b.peer_node_uid@ && a.family == b.family && a.underlay_mtu
        < b.underlay_mtu
}

/// Limiting order: by tunnel MTU, then peer UID, then family.
pub open spec fn limits_before(a: UnderlayMtuObservation, b: UnderlayMtuObservation) -> bool {
    ||| tunnel_mtu(a) < tunnel_mtu(b)
    ||| tunnel_mtu(a) == tunnel_mtu(b) && crate::text::text_lt(a.peer_node_uid@, b.peer_node_uid@)
    ||| tunnel_mtu(a) == tunnel_mtu(b) && a.peer_node_uid@ == b.peer_node_uid@ && family_rank(
        a.family,
    ) < family_rank(b.family)
}

pub open spec fn same_path(a: UnderlayMtuObservation, b: UnderlayMtuObservation) -> bool {
    a.peer_node_uid@ == b.peer_node_uid@ && a.family == b.family
}

/// A valid observation set: nonempty, bounded, one observation per peer and
/// family, valid peer identities, and underlays that fit the overhead.
pub open spec fn observations_ok(v: Seq<UnderlayMtuObservation>) -> bool {
    &&& 0 < v.len() <= MAX_UNDERLAY_MTU_OBSERVATIONS
    &&& forall|i: int, j: int| 0 <= i < j < v.len() ==> !same_path(#[trigger] v[i], #[trigger] v[j])
    &&& forall|i: int|
        0 <= i < v.len() ==> kernel_text((#[trigger] v[i]).peer_node_uid@) && v[i].underlay_mtu
            >= family_overhead(v[i].family)
}

/// Observation `i` limits the group: it orders before every other one.
pub open spec fn limiting_at(v: Seq<UnderlayMtuObservation>, i: int) -> bool {
    &&& 0 <= i < v.len()
    &&& forall|j: int| 0 <= j < v.len() && j != i ==> limits_before(v[i], #[trigger] v[j])
}

pub open spec fn observations_sorted(v: Seq<UnderlayMtuObservation>) -> bool {
    forall|a: int, b: int| 0 <= a < b < v.len() ==> observation_lt(#[trigger] v[a], #[trigger] v[b])
}

/// The envelope fields name observation `o` as the limiter.
pub open spec fn envelope_names(e: WireGuardMtuEnvelope, o: UnderlayMtuObservation) -> bool {
    &&& e.interface_mtu == tunnel_mtu(o)
    &&& e.limiting_peer_node_uid@ == o.peer_node_uid@
    &&& e.limiting_family == o.family
    &&& e.limiting_underlay_mtu == o.underlay_mtu
    &&& e.encapsulation_overhead == family_overhead(o.family)
}

/// The observations admit an envelope: valid, and the limiting tunnel MTU is
/// inside the dual-stack-safe kernel range.
pub open spec fn envelope_derivable(v: Seq<UnderlayMtuObservation>) -> bool {
    &&& observations_ok(v)
    &&& exists|i: int|
        limiting_at(v, i) && MIN_WIREGUARD_MTU <= tunnel_mtu(#[trigger] v[i]) <= MAX_WIREGUARD_MTU
}

/// What `WireGuardMtuEnvelope::verify` accepts: the envelope that `derive`
/// makes from its own observations.
pub open spec fn mtu_envelope_ok(e: WireGuardMtuEnvelope) -> bool {
    &&& envelope_derivable(e.observations@)
    &&& observations_sorted(e.observations@)
    &&& exists|i: int| limiting_at(e.observations@, i) && envelope_names(e, #[trigger] e.observations@[i])
}

proof fn lemma_limits_before_transitive(
    a: UnderlayMtuObservation,
    b: UnderlayMtuObservation,
    c: UnderlayMtuObservation,
)
    requires
        limits_before(a, b),
        limits_before(b, c),
    ensures
        limits_before(a, c),
{
    if tunnel_mtu(a) == tunnel_mtu(b) && tunnel_mtu(b) == tunnel_mtu(c) {
        if crate::text::text_lt(a.peer_node_uid@, b.peer_node_uid@) && crate::text::text_lt(
            b.peer_node_uid@,
            c.peer_node_uid@,
        ) {
            crate::text::lemma_text_lt_transitive(a.peer_node_uid@, b.peer_node_uid@, c.peer_node_uid@);
        }
    }
}

proof fn lemma_limits_total(a: UnderlayMtuObservation, b: UnderlayMtuObservation)
    requires
        !same_path(a, b),
    ensures
        limits_before(a, b) || limits_before(b, a),
{
    crate::text::lemma_text_total(a.peer_node_uid@, b.peer_node_uid@);
}

proof fn lemma_limits_asymmetric(a: UnderlayMtuObservation, b: UnderlayMtuObservation)
    requires
        limits_before(a, b),
    ensures
        !limits_before(b, a),
{
    if tunnel_mtu(a) == tunnel_mtu(b) && crate::text::text_lt(a.peer_node_uid@, b.peer_node_uid@) {
        crate::text::lemma_text_lt_asymmetric(a.peer_node_uid@, b.peer_node_uid@);
    }
}

proof fn lemma_observation_lt_transitive(
    a: UnderlayMtuObservation,
    b: UnderlayMtuObservation,
    c: UnderlayMtuObservation,
)
    requires
        observation_lt(a, b),
        observation_lt(b, c),
    ensures
        observation_lt(a, c),
{
    if crate::text::text_lt(a.peer_node_uid@, b.peer_node_uid@) && crate::text::text_lt(
        b.peer_node_uid@,
        c.peer_node_uid@,
    ) {
        crate::text::lemma_text_lt_transitive(a.peer_node_uid@, b.peer_node_uid@, c.peer_node_uid@);
    }
}

impl UnderlayMtuObservation {
    pub fn duplicate(&self) -> (r: Self)
        ensures
            r == *self,
    {
        UnderlayMtuObservation {
            peer_node_uid: self.peer_node_uid.clone(),
            family: self.family,
            underlay_mtu: self.underlay_mtu,
        }
    }
}

fn family_code(f: UnderlayAddressFamily) -> (r: u8)
    ensures
        r as int == family_rank(f),
{
    match f {
        UnderlayAddressFamily::Ipv4 => 0,
        UnderlayAddressFamily::Ipv6 => 1,
    }
}

fn overhead_of(f: UnderlayAddressFamily) -> (r: u32)
    ensures
        r == family_overhead(f),
{
    match f {
        UnderlayAddressFamily::Ipv4 => WIREGUARD_IPV4_OVERHEAD,
        UnderlayAddressFamily::Ipv6 => WIREGUARD_IPV6_OVERHEAD,
    }
}

fn observation_less(a: &UnderlayMtuObservation, b: &UnderlayMtuObservation) -> (r: bool)
    ensures
        r == observation_lt(*a, *b),
{
    let c = crate::text::compare_text(a.peer_node_uid.as_str(), b.peer_node_uid.as_str());
    proof {
        crate::text::lemma_text_order_eq(a.peer_node_uid@, b.peer_node_uid@);
        crate::text::lemma_text_order_antisymmetric(a.peer_node_uid@, b.peer_node_uid@);
    }
    if c < 0 {
        true
    } else if c > 0 {
        false
    } else {
        let fa = family_code(a.family);
        let fb = family_code(b.family);
        fa < fb || (fa == fb && a.underlay_mtu < b.underlay_mtu)
    }
}

fn limits_less(a: &UnderlayMtuObservation, b: &UnderlayMtuObservation) -> (r: bool)
    requires
        a.underlay_mtu >= family_overhead(a.family),
        b.underlay_mtu >= family_overhead(b.family),
    ensures
        r == limits_before(*a, *b),
{
    let ma = a.underlay_mtu - overhead_of(a.family);
    let mb = b.underlay_mtu - overhead_of(b.family);
    if ma != mb {
        return ma < mb;
    }
    let c = crate::text::compare_text(a.peer_node_uid.as_str(), b.peer_node_uid.as_str());
    proof {
        crate::text::lemma_text_order_eq(a.peer_node_uid@, b.peer_node_uid@);
        crate::text::lemma_text_order_antisymmetric(a.peer_node_uid@, b.peer_node_uid@);
    }
    if c < 0 {
        true
    } else if c > 0 {
        false
    } else {
        family_code(a.family) < family_code(b.family)
    }
}

fn is_same_path(a: &UnderlayMtuObservation, b: &UnderlayMtuObservation) -> (r: bool)
    ensures
        r == same_path(*a, *b),
{
    crate::text::text_eq(a.peer_node_uid.as_str(), b.peer_node_uid.as_str()) && a.family == b.family
}

} // verus!

verus! {

fn check_observations(v: &Vec<UnderlayMtuObservation>) -> (r: bool)
    ensures
        r == observations_ok(v@),
{
    let n = v.len();
    if n == 0 || n > MAX_UNDERLAY_MTU_OBSERVATIONS {
        return false;
    }
    let mut i: usize = 0;
    while i < n
        invariant
            n == v@.len(),
            i <= n,
            forall|a: int, b: int| 0 <= a < b < n && a < i ==> !same_path(#[trigger] v@[a], #[trigger] v@[b]),
            forall|a: int|
                0 <= a < i ==> kernel_text((#[trigger] v@[a]).peer_node_uid@) && v@[a].underlay_mtu
                    >= family_overhead(v@[a].family),
        decreases n - i,
    {
        if !validate_text(v[i].peer_node_uid.as_str()) || v[i].underlay_mtu < overhead_of(v[i].family) {
            return false;
        }
        let mut j: usize = i + 1;
        while j < n
            invariant
                n == v@.len(),
                i < n,
                i + 1 <= j <= n,
                forall|b: int| i < b < j ==> !same_path(v@[i as int], #[trigger] v@[b]),
            decreases n - j,
        {
            if is_same_path(&v[i], &v[j]) {
                return false;
            }
            j = j + 1;
        }
        i = i + 1;
    }
    true
}

/// The index of the limiting observation.
fn find_limiting(v: &Vec<UnderlayMtuObservation>) -> (i: usize)
    requires
        observations_ok(v@),
    ensures
        limiting_at(v@, i as int),
{
    let n = v.len();
    let mut best: usize = 0;
    let mut k: usize = 1;
    while k < n
        invariant
            n == v@.len(),
            observations_ok(v@),
            1 <= k <= n,
            best < k,
            forall|j: int| 0 <= j < k && j != best ==> limits_before(v@[best as int], #[trigger] v@[j]),
        decreases n - k,
    {
        if limits_less(&v[k], &v[best]) {
            proof {
                assert forall|j: int| 0 <= j < k + 1 && j != k implies limits_before(
                    v@[k as int],
                    #[trigger] v@[j],
                ) by {
                    if j != best {
                        lemma_limits_before_transitive(v@[k as int], v@[best as int], v@[j]);
                    }
                }
            }
            best = k;
        } else {
            proof {
                if best < k {
                    assert(!same_path(v@[best as int], v@[k as int]));
                }
                lemma_limits_total(v@[k as int], v@[best as int]);
            }
        }
        k = k + 1;
    }
    best
}

proof fn lemma_limiting_unique(v: Seq<UnderlayMtuObservation>, i: int, j: int)
    requires
        limiting_at(v, i),
        limiting_at(v, j),
    ensures
        i == j,
{
    if i != j {
        assert(limits_before(v[i], v[j]));
        assert(limits_before(v[j], v[i]));
        lemma_limits_asymmetric(v[i], v[j]);
    }
}

fn is_observations_sorted(v: &Vec<UnderlayMtuObservation>) -> (r: bool)
    ensures
        r == observations_sorted(v@),
{
    let n = v.len();
    let mut i: usize = 1;
    while i < n
        invariant
            n == v@.len(),
            1 <= i,
            forall|a: int, b: int| 0 <= a < b < n && b < i ==> observation_lt(#[trigger] v@[a], #[trigger] v@[b]),
        decreases n - i,
    {
        if !observation_less(&v[i - 1], &v[i]) {
            return false;
        }
        proof {
            assert forall|a: int, b: int| 0 <= a < b < n && b < i + 1 implies observation_lt(
                #[trigger] v@[a],
                #[trigger] v@[b],
            ) by {
                if b == i && a < i - 1 {
                    lemma_observation_lt_transitive(v@[a], v@[i - 1], v@[b]);
                }
            }
        }
        i = i + 1;
    }
    true
}

/// Inserts `x` at its place in a list in canonical observation order.
fn insert_observation_sorted(out: &mut Vec<UnderlayMtuObservation>, x: UnderlayMtuObservation)
    requires
        observations_sorted(old(out)@),
        forall|i: int| 0 <= i < old(out)@.len() ==> !same_path(#[trigger] old(out)@[i], x),
    ensures
        observations_sorted(final(out)@),
        final(out)@.to_multiset() == old(out)@.to_multiset().insert(x),
{
    let n = out.len();
    let mut p: usize = 0;
    while p < n && observation_less(&out[p], &x)
        invariant
            n == out@.len(),
            p <= n,
            out@ == old(out)@,
            forall|j: int| 0 <= j < p ==> observation_lt(#[trigger] out@[j], x),
        decreases n - p,
    {
        p = p + 1;
    }
    let ghost o = out@;
    proof {
        if p < n {
            assert(!same_path(o[p as int], x));
            crate::text::lemma_text_total(o[p as int].peer_node_uid@, x.peer_node_uid@);
            assert(observation_lt(x, o[p as int]));
        }
        assert forall|j: int| p <= j < n implies observation_lt(x, #[trigger] o[j]) by {
            if j > p {
                lemma_observation_lt_transitive(x, o[p as int], o[j]);
            }
        }
    }
    out.insert(p, x);
    proof {
        assert(out@ == o.insert(p as int, x));
        vstd::seq_lib::to_multiset_insert(o, p as int, x);
        assert forall|a: int, b: int| 0 <= a < b < out@.len() implies observation_lt(
            #[trigger] out@[a],
            #[trigger] out@[b],
        ) by {
            if a < p && b > p {
                lemma_observation_lt_transitive(out@[a], x, out@[b]);
            }
        }
    }
}

/// A canonically ordered copy of valid observations.
fn sort_observations(v: &Vec<UnderlayMtuObservation>) -> (r: Vec<UnderlayMtuObservation>)
    requires
        observations_ok(v@),
    ensures
        observations_sorted(r@),
        r@.to_multiset() == v@.to_multiset(),
{
    let mut out: Vec<UnderlayMtuObservation> = Vec::new();
    proof {
        vstd::seq_lib::to_multiset_len(out@);
        vstd::multiset::lemma_multiset_empty_len(out@.to_multiset());
        vstd::seq_lib::to_multiset_len(v@.take(0));
        vstd::multiset::lemma_multiset_empty_len(v@.take(0).to_multiset());
    }
    let mut i: usize = 0;
    while i < v.len()
        invariant
            observations_ok(v@),
            i <= v@.len(),
            observations_sorted(out@),
            out@.to_multiset() == v@.take(i as int).to_multiset(),
        decreases v@.len() - i,
    {
        let x = v[i].duplicate();
        proof {
            assert forall|k: int| 0 <= k < out@.len() implies !same_path(#[trigger] out@[k], x) by {
                vstd::seq_lib::to_multiset_contains(out@, out@[k]);
                assert(out@.contains(out@[k]));
                assert(v@.take(i as int).to_multiset().count(out@[k]) > 0);
                vstd::seq_lib::to_multiset_contains(v@.take(i as int), out@[k]);
                let q = choose|q: int| 0 <= q < i && v@.take(i as int)[q] == out@[k];
                assert(v@[q] == out@[k]);
                assert(!same_path(v@[q], v@[i as int]));
            }
        }
        insert_observation_sorted(&mut out, x);
        proof {
            assert(v@.take(i + 1) =~= v@.take(i as int).push(v@[i as int]));
            vstd::seq_lib::to_multiset_build(v@.take(i as int), v@[i as int]);
        }
        i = i + 1;
    }
    assert(v@.take(i as int) =~= v@);
    out
}

impl WireGuardMtuEnvelope {
    /// Derives the largest safe common MTU for one coalesced transport group.
    pub fn derive(observations: &Vec<UnderlayMtuObservation>) -> (r: Result<Self, WireGuardKernelError>)
        ensures
            r is Ok <==> envelope_derivable(observations@),
            r is Err ==> r->Err_0 is InvalidMtuEnvelope,
            r matches Ok(e) ==> {
                &&& observations_sorted(e.observations@)
                &&& e.observations@.to_multiset() == observations@.to_multiset()
                &&& exists|i: int|
                    limiting_at(observations@, i) && envelope_names(e, #[trigger] observations@[i])
            },
    {
        if !check_observations(observations) {
            return Err(WireGuardKernelError::InvalidMtuEnvelope);
        }
        let i = find_limiting(observations);
        let o = &observations[i];
        let mtu = o.underlay_mtu - overhead_of(o.family);
        if mtu < MIN_WIREGUARD_MTU || mtu > MAX_WIREGUARD_MTU {
            proof {
                if envelope_derivable(observations@) {
                    let k = choose|k: int|
                        limiting_at(observations@, k) && MIN_WIREGUARD_MTU <= tunnel_mtu(
                            #[trigger] observations@[k],
                        ) <= MAX_WIREGUARD_MTU;
                    lemma_limiting_unique(observations@, i as int, k);
                }
            }
            return Err(WireGuardKernelError::InvalidMtuEnvelope);
        }
        let canonical = sort_observations(observations);
        let e = WireGuardMtuEnvelope {
            interface_mtu: mtu,
            limiting_peer_node_uid: o.peer_node_uid.clone(),
            limiting_family: o.family,
            limiting_underlay_mtu: o.underlay_mtu,
            encapsulation_overhead: overhead_of(o.family),
            observations: canonical,
        };
        assert(envelope_names(e, observations@[i as int]));
        Ok(e)
    }

    /// Accepts exactly the envelope that `derive` makes from these
    /// observations.
    pub fn verify(&self) -> (r: Result<(), WireGuardKernelError>)
        ensures
            r is Ok <==> mtu_envelope_ok(*self),
            r is Err ==> r->Err_0 is InvalidMtuEnvelope,
    {
        let v = &self.observations;
        if !check_observations(v) {
            return Err(WireGuardKernelError::InvalidMtuEnvelope);
        }
        let i = find_limiting(v);
        let o = &v[i];
        let mtu = o.underlay_mtu - overhead_of(o.family);
        proof {
            if mtu_envelope_ok(*self) {
                let k = choose|k: int|
                    limiting_at(self.observations@, k) && envelope_names(*self, #[trigger] self.observations@[k]);
                lemma_limiting_unique(self.observations@, i as int, k);
            }
            if envelope_derivable(self.observations@) {
                let k = choose|k: int|
                    limiting_at(self.observations@, k) && MIN_WIREGUARD_MTU <= tunnel_mtu(
                        #[trigger] self.observations@[k],
                    ) <= MAX_WIREGUARD_MTU;
                lemma_limiting_unique(self.observations@, i as int, k);
            }
        }
        if mtu < MIN_WIREGUARD_MTU || mtu > MAX_WIREGUARD_MTU || !is_observations_sorted(v)
            || self.interface_mtu != mtu || !crate::text::text_eq(
            self.limiting_peer_node_uid.as_str(),
            o.peer_node_uid.as_str(),
        ) || self.limiting_family != o.family || self.limiting_underlay_mtu != o.underlay_mtu
            || self.encapsulation_overhead != overhead_of(o.family) {
            return Err(WireGuardKernelError::InvalidMtuEnvelope);
        }
        assert(envelope_names(*self, self.observations@[i as int]));
        assert(limiting_at(self.observations@, i as int) && MIN_WIREGUARD_MTU <= tunnel_mtu(
            self.observations@[i as int],
        ) <= MAX_WIREGUARD_MTU);
        Ok(())
    }
}

} // verus!

verus! {

/// Kernel interface names: `unfwg` followed by ASCII letters, digits, or
/// `-`, at most 15 bytes.
pub open spec fn kernel_interface_name_ok(bytes: Seq<u8>) -> bool {
    &&& 5 <= bytes.len() <= MAX_WIREGUARD_INTERFACE_NAME_BYTES
    &&& bytes.take(5) == seq![0x75u8, 0x6eu8, 0x66u8, 0x77u8, 0x67u8]
    &&& forall|i: int|
        0 <= i < bytes.len() ==> {
            let b = #[trigger] bytes[i];
            (0x30 <= b <= 0x39) || (0x41 <= b <= 0x5a) || (0x61 <= b <= 0x7a) || b == 0x2d
        }
}

pub fn valid_interface_name(value: &str) -> (r: bool)
    ensures
        r == kernel_interface_name_ok(vstd::utf8::encode_utf8(value@)),
{
    let bytes = value.as_bytes();
    if bytes.len() < 5 || bytes.len() > MAX_WIREGUARD_INTERFACE_NAME_BYTES {
        return false;
    }
    if bytes[0] != 0x75 || bytes[1] != 0x6e || bytes[2] != 0x66 || bytes[3] != 0x77 || bytes[4]
        != 0x67 {
        proof {
            let p = seq![0x75u8, 0x6eu8, 0x66u8, 0x77u8, 0x67u8];
            if bytes@.take(5) == p {
                assert(bytes@.take(5)[0] == bytes@[0]);
                assert(bytes@.take(5)[1] == bytes@[1]);
                assert(bytes@.take(5)[2] == bytes@[2]);
                assert(bytes@.take(5)[3] == bytes@[3]);
                assert(bytes@.take(5)[4] == bytes@[4]);
            }
        }
        return false;
    }
    assert(bytes@.take(5) =~= seq![0x75u8, 0x6eu8, 0x66u8, 0x77u8, 0x67u8]);
    let mut i: usize = 0;
    while i < bytes.len()
        invariant
            bytes@ == vstd::utf8::encode_utf8(value@),
            5 <= bytes@.len() <= MAX_WIREGUARD_INTERFACE_NAME_BYTES,
            bytes@.take(5) == seq![0x75u8, 0x6eu8, 0x66u8, 0x77u8, 0x67u8],
            i <= bytes@.len(),
            forall|j: int|
                0 <= j < i ==> {
                    let b = #[trigger] bytes@[j];
                    (0x30 <= b <= 0x39) || (0x41 <= b <= 0x5a) || (0x61 <= b <= 0x7a) || b == 0x2d
                },
        decreases bytes@.len() - i,
    {
        let b = bytes[i];
        if !((0x30 <= b && b <= 0x39) || (0x41 <= b && b <= 0x5a) || (0x61 <= b && b <= 0x7a) || b
            == 0x2d) {
            return false;
        }
        i = i + 1;
    }
    true
}

#[derive(Clone, Copy, Debug, PartialEq, Eq, Structural)]
pub enum WireGuardRouteScope {
    Link,
    Universe,
}

impl WireGuardRouteScope {
    /// IPv4 routes are link-scoped; IPv6 routes are universe-scoped.
    pub fn for_prefix(prefix: crate::address::IpPrefix) -> (r: Self)
        ensures
            r == (match prefix.address {
                crate::address::IpAddr::V4(_) => WireGuardRouteScope::Link,
                crate::address::IpAddr::V6(_) => WireGuardRouteScope::Universe,
            }),
    {
        match prefix.address {
            crate::address::IpAddr::V4(_) => WireGuardRouteScope::Link,
            crate::address::IpAddr::V6(_) => WireGuardRouteScope::Universe,
        }
    }
}

/// A usable peer endpoint: a nonzero port on an address that is neither
/// unspecified, multicast, nor the IPv4 broadcast address.
pub open spec fn endpoint_ok(e: crate::address::SocketAddr) -> bool {
    &&& e.port != 0
    &&& !crate::address::address_unspecified(e.ip)
    &&& !crate::address::address_multicast(e.ip)
    &&& !crate::address::address_broadcast(e.ip)
}

pub fn valid_endpoint(value: crate::address::SocketAddr) -> (r: bool)
    ensures
        r == endpoint_ok(value),
{
    if value.port == 0 || value.ip.is_unspecified() || value.ip.is_multicast() {
        return false;
    }
    match value.ip {
        crate::address::IpAddr::V4(x) => x != 0xffff_ffffu32,
        crate::address::IpAddr::V6(_) => true,
    }
}

} // verus!
