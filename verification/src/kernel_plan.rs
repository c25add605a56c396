//! The canonical, bounded WireGuard kernel plan of one Node and epoch.
//!
//! Each Node block's proof address (its workload-IPAM-excluded host beacon)
//! is supplied by the IPAM node-block rules; this module checks the blocks,
//! places the beacons, and checks every other part of the plan.

use vstd::prelude::*;
use vstd::utf8::encode_utf8;
use crate::address::{prefix_canonical, prefixes_overlap, IpAddr, IpPrefix, SocketAddr};
use crate::contract::{list_enc, push_list, Encode};
use crate::kernel_snapshot::{snapshot_ok, WireGuardKernelConfigurationDigest, WireGuardKernelSnapshot};
use crate::digest::{
    all_zero, bytes32_eq, bytes32_is_zero, bytes32_lt, bytes_lt, opt_raw_bytes, push_opt_raw32, push_raw32, push_slice, push_text, push_u16, push_u32,
    push_u64, push_u8, raw_bytes, sha256, sha256_spec, text_bytes, u16_bytes, u32_bytes, u64_bytes, u8_bytes,
};
use crate::ids::Revision;
use crate::kernel_provider::{
    endpoint_ok, kernel_interface_name_ok, kernel_text, mtu_envelope_ok, valid_endpoint, valid_interface_name,
    validate_text, UnderlayAddressFamily, WireGuardKernelError, WireGuardMtuEnvelope, MAX_WIREGUARD_ALLOWED_IPS,
    MAX_WIREGUARD_OWNER_ALIAS_BYTES, MAX_WIREGUARD_PEERS, WIREGUARD_KERNEL_PROVIDER_SCHEMA_VERSION,
};
use crate::kernel_snapshot::{owner_alias_prefix, proof_addresses_checked, proof_addresses_ok, strictly_ascending};
use crate::keys::{WireGuardPrivateKey, WireGuardPublicKey};
use crate::sorting::{keys_distinct, sort_by_key, sort_unique_by_key, sorted_by_key, strictly_sorted_by_key, Keyed};
use crate::text::{compare_text, text_eq, text_order};

verus! {

/// The proof beacon that the IPAM node-block rules assign to one Node block.
#[derive(Clone, Copy, Debug)]
pub struct ProofBeacon {
    pub block: IpPrefix,
    pub beacon: IpAddr,
}

/// The beacon listed first for `block`, if any.
pub open spec fn beacon_for(beacons: Seq<ProofBeacon>, block: IpPrefix) -> Option<IpAddr>
    decreases beacons.len(),
{
    if beacons.len() == 0 {
        None
    } else if beacons[0].block == block {
        Some(beacons[0].beacon)
    } else {
        beacon_for(beacons.drop_first(), block)
    }
}

/// The host prefix of an address: /32 for IPv4, /128 for IPv6.
pub open spec fn host_prefix_of(a: IpAddr) -> IpPrefix {
    IpPrefix {
        address: a,
        prefix_len: match a {
            IpAddr::V4(_) => 32u8,
            IpAddr::V6(_) => 128u8,
        },
    }
}

/// Node blocks that can carry proof addresses: present, bounded, canonical,
/// and pairwise disjoint.
pub open spec fn blocks_ok(blocks: Seq<IpPrefix>) -> bool {
    &&& 0 < blocks.len() <= crate::model::MAX_ENCRYPTION_PREFIXES_PER_NODE
    &&& forall|i: int| 0 <= i < blocks.len() ==> prefix_canonical(#[trigger] blocks[i])
    &&& forall|i: int, j: int| 0 <= i < j < blocks.len() ==> !prefixes_overlap(#[trigger] blocks[i], #[trigger] blocks[j])
}

/// The host prefix of each block's beacon, in block order.
pub open spec fn beacon_prefixes(blocks: Seq<IpPrefix>, beacons: Seq<ProofBeacon>) -> Seq<IpPrefix> {
    blocks.map_values(|b: IpPrefix| host_prefix_of(beacon_for(beacons, b)->0))
}

/// The blocks are well formed, every block has a beacon, and no two beacons
/// coincide.
pub open spec fn proof_addresses_derivable(blocks: Seq<IpPrefix>, beacons: Seq<ProofBeacon>) -> bool {
    &&& blocks_ok(blocks)
    &&& forall|i: int| 0 <= i < blocks.len() ==> (#[trigger] beacon_for(beacons, blocks[i])) is Some
    &&& keys_distinct(beacon_prefixes(blocks, beacons))
}

fn find_beacon(beacons: &Vec<ProofBeacon>, block: IpPrefix) -> (r: Option<IpAddr>)
    ensures
        r == beacon_for(beacons@, block),
{
    let mut i: usize = 0;
    assert(beacons@.skip(0) =~= beacons@);
    while i < beacons.len()
        invariant
            i <= beacons@.len(),
            beacon_for(beacons@, block) == beacon_for(beacons@.skip(i as int), block),
        decreases beacons@.len() - i,
    {
        let b = beacons[i];
        assert(beacons@.skip(i as int)[0] == b);
        if b.block == block {
            return Some(b.beacon);
        }
        assert(beacons@.skip(i as int).drop_first() =~= beacons@.skip(i + 1));
        i = i + 1;
    }
    None
}

fn host_prefix(a: IpAddr) -> (r: IpPrefix)
    ensures
        r == host_prefix_of(a),
{
    match a {
        IpAddr::V4(_) => IpPrefix { address: a, prefix_len: 32 },
        IpAddr::V6(_) => IpPrefix { address: a, prefix_len: 128 },
    }
}

/// Whether the Node blocks are present, bounded, canonical, and disjoint.
pub fn blocks_checked(blocks: &Vec<IpPrefix>) -> (r: bool)
    ensures
        r == blocks_ok(blocks@),
{
    if blocks.len() == 0 || blocks.len() > crate::model::MAX_ENCRYPTION_PREFIXES_PER_NODE {
        return false;
    }
    let n = blocks.len();
    let mut i: usize = 0;
    while i < n
        invariant
            n == blocks@.len(),
            i <= n,
            forall|a: int| 0 <= a < i ==> prefix_canonical(#[trigger] blocks@[a]),
            forall|a: int, b: int| 0 <= a < i && a < b < n ==> !prefixes_overlap(#[trigger] blocks@[a], #[trigger] blocks@[b]),
        decreases n - i,
    {
        if !blocks[i].is_canonical() {
            return false;
        }
        let mut j: usize = i + 1;
        while j < n
            invariant
                n == blocks@.len(),
                i < n,
                i + 1 <= j <= n,
                forall|b: int| i < b < j ==> !prefixes_overlap(blocks@[i as int], #[trigger] blocks@[b]),
            decreases n - j,
        {
            if blocks[i].overlaps(blocks[j]) {
                return false;
            }
            j = j + 1;
        }
        i = i + 1;
    }
    true
}

/// Derives one workload-IPAM-excluded host address per Node block from the
/// beacons that the IPAM node-block rules assign, in ascending order.
///
/// Rejects missing, overlapping, noncanonical, or too many blocks, a block
/// without a beacon, and two blocks with the same beacon.
pub fn derive_wireguard_proof_addresses(blocks: &Vec<IpPrefix>, beacons: &Vec<ProofBeacon>) -> (r: Result<
    Vec<IpPrefix>,
    WireGuardKernelError,
>)
    ensures
        r is Ok <==> proof_addresses_derivable(blocks@, beacons@),
        r is Err ==> r->Err_0 is InvalidPlan,
        r matches Ok(v) ==> strictly_sorted_by_key(v@) && v@.to_multiset() == beacon_prefixes(
            blocks@,
            beacons@,
        ).to_multiset(),
{
    if !blocks_checked(blocks) {
        return Err(WireGuardKernelError::InvalidPlan);
    }
    let mut hosts: Vec<IpPrefix> = Vec::new();
    let mut i: usize = 0;
    while i < blocks.len()
        invariant
            i <= blocks@.len(),
            hosts@.len() == i,
            forall|a: int| 0 <= a < i ==> (#[trigger] beacon_for(beacons@, blocks@[a])) is Some,
            forall|a: int| 0 <= a < i ==> #[trigger] hosts@[a] == host_prefix_of(beacon_for(beacons@, blocks@[a])->0),
        decreases blocks@.len() - i,
    {
        match find_beacon(beacons, blocks[i]) {
            Some(a) => {
                hosts.push(host_prefix(a));
            },
            None => {
                return Err(WireGuardKernelError::InvalidPlan);
            },
        }
        i = i + 1;
    }
    assert(hosts@ =~= beacon_prefixes(blocks@, beacons@));
    match sort_unique_by_key(hosts) {
        Some(sorted) => Ok(sorted),
        None => Err(WireGuardKernelError::InvalidPlan),
    }
}

} // verus!

verus! {

#[derive(Clone, Copy, Debug, PartialEq, Eq, Structural)]
pub enum WireGuardEpochActivation {
    /// The device is operational in an isolated route table, but no
    /// fast-path epoch bank selects it for workload traffic.
    InactiveStaged,
    /// The separately committed fast-path epoch bank may select the device.
    Active,
}

#[derive(Clone, Debug)]
pub struct WireGuardPeerPlan {
    pub node_uid: String,
    pub public_key: WireGuardPublicKey,
    pub endpoint: SocketAddr,
    pub persistent_keepalive_seconds: u16,
    pub allowed_ips: Vec<IpPrefix>,
}

#[derive(Clone, Copy, Debug)]
pub struct WireGuardKernelPlanDigest(pub [u8; 32]);

#[derive(Clone, Debug)]
pub struct WireGuardKernelPlan {
    pub schema_version: u16,
    pub cluster_id: String,
    pub local_node_uid: String,
    pub epoch: u64,
    pub revision: Revision,
    pub interface_name: String,
    pub owner_alias: String,
    pub local_public_key: WireGuardPublicKey,
    pub listen_port: u16,
    pub fwmark: u32,
    pub route_table: u32,
    pub mtu_envelope: WireGuardMtuEnvelope,
    pub local_pod_cidrs: Vec<IpPrefix>,
    pub proof_addresses: Vec<IpPrefix>,
    pub activation: WireGuardEpochActivation,
    pub peers: Vec<WireGuardPeerPlan>,
    pub plan_digest: WireGuardKernelPlanDigest,
}

/// The decimal digits of `n`, most significant first, as ASCII bytes.
pub open spec fn decimal_bytes(n: nat) -> Seq<u8>
    decreases n,
{
    if n < 10 {
        seq![(48 + n) as u8]
    } else {
        decimal_bytes(n / 10).push((48 + n % 10) as u8)
    }
}

fn push_decimal(out: &mut Vec<u8>, n: u64)
    ensures
        final(out)@ == old(out)@ + decimal_bytes(n as nat),
    decreases n,
{
    if n >= 10 {
        push_decimal(out, n / 10);
    }
    let d: u8 = (n % 10) as u8;
    out.push(48u8 + d);
    assert(final(out)@ =~= old(out)@ + decimal_bytes(n as nat));
}

/// The owner alias of a plan, as bytes:
/// `unf:encryption:v2:<cluster>:<node uid>:<epoch>`.
pub open spec fn owner_alias_bytes(cluster_id: Seq<char>, node_uid: Seq<char>, epoch: u64) -> Seq<u8> {
    owner_alias_prefix() + encode_utf8(cluster_id) + seq![58u8] + encode_utf8(node_uid) + seq![58u8] + decimal_bytes(
        epoch as nat,
    )
}

fn owner_alias_of(cluster_id: &str, node_uid: &str, epoch: u64) -> (r: Vec<u8>)
    ensures
        r@ == owner_alias_bytes(cluster_id@, node_uid@, epoch),
{
    let mut m: Vec<u8> = vec![
        0x75u8, 0x6eu8, 0x66u8, 0x3au8, 0x65u8, 0x6eu8, 0x63u8, 0x72u8, 0x79u8, 0x70u8, 0x74u8, 0x69u8, 0x6fu8,
        0x6eu8, 0x3au8, 0x76u8, 0x32u8, 0x3au8,
    ];
    assert(m@ =~= owner_alias_prefix());
    push_slice(&mut m, cluster_id.as_bytes());
    m.push(58u8);
    push_slice(&mut m, node_uid.as_bytes());
    m.push(58u8);
    push_decimal(&mut m, epoch);
    assert(m@ =~= owner_alias_bytes(cluster_id@, node_uid@, epoch));
    m
}

fn bytes_equal(a: &[u8], b: &Vec<u8>) -> (r: bool)
    ensures
        r == (a@ == b@),
{
    if a.len() != b.len() {
        return false;
    }
    let mut i: usize = 0;
    while i < a.len()
        invariant
            a@.len() == b@.len(),
            i <= a@.len(),
            forall|j: int| 0 <= j < i ==> a@[j] == b@[j],
        decreases a@.len() - i,
    {
        if a[i] != b[i] {
            return false;
        }
        i = i + 1;
    }
    assert(a@ =~= b@);
    true
}

/// The underlay family of an endpoint.
pub open spec fn endpoint_family(e: SocketAddr) -> UnderlayAddressFamily {
    match e.ip {
        IpAddr::V4(_) => UnderlayAddressFamily::Ipv4,
        IpAddr::V6(_) => UnderlayAddressFamily::Ipv6,
    }
}

/// Peer order: by Node UID, then by public key.
pub open spec fn peer_lt(a: WireGuardPeerPlan, b: WireGuardPeerPlan) -> bool {
    text_order(a.node_uid@, b.node_uid@) < 0 || (a.node_uid@ == b.node_uid@ && bytes_lt(
        a.public_key.0@,
        b.public_key.0@,
    ))
}

/// Each peer orders strictly after the one before it.
pub open spec fn peers_ascend_at(v: Seq<WireGuardPeerPlan>, i: int) -> bool {
    peer_lt(v[i], v[i + 1])
}

/// The envelope measured the path to the peer in the endpoint's family.
pub open spec fn envelope_covers(e: WireGuardMtuEnvelope, peer: WireGuardPeerPlan) -> bool {
    exists|k: int|
        0 <= k < e.observations@.len() && (#[trigger] e.observations@[k]).peer_node_uid@ == peer.node_uid@
            && e.observations@[k].family == endpoint_family(peer.endpoint)
}

/// One peer on its own, apart from the envelope: a valid remote Node, a
/// usable endpoint, a bounded keepalive, and ascending canonical AllowedIPs.
pub open spec fn peer_shape_ok(p: WireGuardKernelPlan, peer: WireGuardPeerPlan) -> bool {
    &&& kernel_text(peer.node_uid@)
    &&& peer.node_uid@ != p.local_node_uid@
    &&& !all_zero(peer.public_key.0@)
    &&& peer.public_key.0@ != p.local_public_key.0@
    &&& endpoint_ok(peer.endpoint)
    &&& peer.persistent_keepalive_seconds <= 600
    &&& peer.allowed_ips@.len() > 0
    &&& strictly_sorted_by_key(peer.allowed_ips@)
    &&& forall|k: int| 0 <= k < peer.allowed_ips@.len() ==> prefix_canonical(#[trigger] peer.allowed_ips@[k])
}

/// One peer on its own: a valid remote Node, a usable endpoint, a bounded
/// keepalive, and ascending canonical AllowedIPs measured by the envelope.
pub open spec fn peer_plan_ok(p: WireGuardKernelPlan, peer: WireGuardPeerPlan) -> bool {
    peer_shape_ok(p, peer) && envelope_covers(p.mtu_envelope, peer)
}

/// Every AllowedIP of the peers, peer after peer.
pub open spec fn plan_allowed(v: Seq<WireGuardPeerPlan>) -> Seq<IpPrefix>
    decreases v.len(),
{
    if v.len() == 0 {
        Seq::empty()
    } else {
        plan_allowed(v.drop_last()) + v.last().allowed_ips@
    }
}

/// Some peer is the Node that the observation measured.
pub open spec fn observation_named(peers: Seq<WireGuardPeerPlan>, o: crate::kernel_provider::UnderlayMtuObservation) -> bool {
    exists|i: int| 0 <= i < peers.len() && (#[trigger] peers[i]).node_uid@ == o.peer_node_uid@
}

/// Adjacent prefixes of `s` are disjoint.
pub open spec fn adjacent_disjoint(s: Seq<IpPrefix>) -> bool {
    forall|i: int| 0 <= i < s.len() - 1 ==> !prefixes_overlap(#[trigger] s[i], s[i + 1])
}

/// Sorted, the AllowedIPs of all peers have no two neighbours that overlap.
pub open spec fn allowed_unambiguous(all: Seq<IpPrefix>) -> bool {
    exists|s: Seq<IpPrefix>| #[trigger] sorted_by_key(s) && s.to_multiset() == all.to_multiset() && adjacent_disjoint(s)
}

/// What `WireGuardKernelPlan::verify` accepts of the plan's shape, given the
/// IPAM beacons of its Node blocks.
pub open spec fn plan_shape_ok(p: WireGuardKernelPlan, beacons: Seq<ProofBeacon>) -> bool {
    let peers = p.peers@;
    &&& mtu_envelope_ok(p.mtu_envelope)
    &&& p.schema_version == WIREGUARD_KERNEL_PROVIDER_SCHEMA_VERSION
    &&& kernel_text(p.cluster_id@)
    &&& kernel_text(p.local_node_uid@)
    &&& p.epoch != 0
    &&& p.revision.0 != 0
    &&& kernel_interface_name_ok(encode_utf8(p.interface_name@))
    &&& encode_utf8(p.owner_alias@) == owner_alias_bytes(p.cluster_id@, p.local_node_uid@, p.epoch)
    &&& encode_utf8(p.owner_alias@).len() <= MAX_WIREGUARD_OWNER_ALIAS_BYTES
    &&& !all_zero(p.local_public_key.0@)
    &&& p.listen_port != 0
    &&& p.fwmark != 0
    &&& p.route_table != 0
    &&& proof_addresses_derivable(p.local_pod_cidrs@, beacons)
    &&& p.proof_addresses@.to_multiset() == beacon_prefixes(p.local_pod_cidrs@, beacons).to_multiset()
    &&& proof_addresses_ok(p.proof_addresses@)
    &&& 0 < peers.len() <= MAX_WIREGUARD_PEERS
    &&& forall|i: int| 0 <= i < peers.len() ==> peer_plan_ok(p, #[trigger] peers[i])
    &&& forall|i: int, j: int|
        0 <= i < j < peers.len() ==> (#[trigger] peers[i]).node_uid@ != (#[trigger] peers[j]).node_uid@
            && peers[i].public_key.0@ != peers[j].public_key.0@
    &&& forall|i: int| 0 <= i < peers.len() - 1 ==> #[trigger] peers_ascend_at(peers, i)
    &&& plan_allowed(peers).len() <= MAX_WIREGUARD_ALLOWED_IPS
    &&& forall|k: int|
        0 <= k < p.mtu_envelope.observations@.len() ==> observation_named(peers, #[trigger] p.mtu_envelope.observations@[k])
    &&& allowed_unambiguous(plan_allowed(peers))
}

} // verus!

verus! {

fn envelope_covers_peer(e: &WireGuardMtuEnvelope, peer: &WireGuardPeerPlan) -> (r: bool)
    ensures
        r == envelope_covers(*e, *peer),
{
    let family = match peer.endpoint.ip {
        IpAddr::V4(_) => UnderlayAddressFamily::Ipv4,
        IpAddr::V6(_) => UnderlayAddressFamily::Ipv6,
    };
    let mut k: usize = 0;
    while k < e.observations.len()
        invariant
            k <= e.observations@.len(),
            family == endpoint_family(peer.endpoint),
            forall|j: int|
                0 <= j < k ==> !((#[trigger] e.observations@[j]).peer_node_uid@ == peer.node_uid@
                    && e.observations@[j].family == endpoint_family(peer.endpoint)),
        decreases e.observations@.len() - k,
    {
        if text_eq(e.observations[k].peer_node_uid.as_str(), peer.node_uid.as_str()) && e.observations[k].family
            == family {
            return true;
        }
        k = k + 1;
    }
    false
}

fn peer_checked(p: &WireGuardKernelPlan, peer: &WireGuardPeerPlan) -> (r: bool)
    ensures
        r == peer_shape_ok(*p, *peer),
{
    if !validate_text(peer.node_uid.as_str()) || text_eq(peer.node_uid.as_str(), p.local_node_uid.as_str())
        || bytes32_is_zero(&peer.public_key.0) || bytes32_eq(&peer.public_key.0, &p.local_public_key.0)
        || !valid_endpoint(peer.endpoint) || peer.persistent_keepalive_seconds > 600 || peer.allowed_ips.len() == 0
        || !strictly_ascending(&peer.allowed_ips) {
        return false;
    }
    let mut k: usize = 0;
    while k < peer.allowed_ips.len()
        invariant
            k <= peer.allowed_ips@.len(),
            forall|j: int| 0 <= j < k ==> prefix_canonical(#[trigger] peer.allowed_ips@[j]),
        decreases peer.allowed_ips@.len() - k,
    {
        if !peer.allowed_ips[k].is_canonical() {
            return false;
        }
        k = k + 1;
    }
    true
}

fn peers_distinct(peers: &Vec<WireGuardPeerPlan>) -> (r: bool)
    ensures
        r == (forall|i: int, j: int|
            0 <= i < j < peers@.len() ==> (#[trigger] peers@[i]).node_uid@ != (#[trigger] peers@[j]).node_uid@
                && peers@[i].public_key.0@ != peers@[j].public_key.0@),
{
    let n = peers.len();
    let mut i: usize = 0;
    while i < n
        invariant
            n == peers@.len(),
            i <= n,
            forall|a: int, b: int|
                0 <= a < i && a < b < n ==> (#[trigger] peers@[a]).node_uid@ != (#[trigger] peers@[b]).node_uid@
                    && peers@[a].public_key.0@ != peers@[b].public_key.0@,
        decreases n - i,
    {
        let mut j: usize = i + 1;
        while j < n
            invariant
                n == peers@.len(),
                i < n,
                i + 1 <= j <= n,
                forall|b: int|
                    i < b < j ==> peers@[i as int].node_uid@ != (#[trigger] peers@[b]).node_uid@
                        && peers@[i as int].public_key.0@ != peers@[b].public_key.0@,
            decreases n - j,
        {
            if text_eq(peers[i].node_uid.as_str(), peers[j].node_uid.as_str()) || bytes32_eq(
                &peers[i].public_key.0,
                &peers[j].public_key.0,
            ) {
                return false;
            }
            j = j + 1;
        }
        i = i + 1;
    }
    true
}

fn peer_less(a: &WireGuardPeerPlan, b: &WireGuardPeerPlan) -> (r: bool)
    ensures
        r == peer_lt(*a, *b),
{
    let c = compare_text(a.node_uid.as_str(), b.node_uid.as_str());
    if c < 0 {
        return true;
    }
    text_eq(a.node_uid.as_str(), b.node_uid.as_str()) && bytes32_lt(&a.public_key.0, &b.public_key.0)
}

fn peers_ascending(peers: &Vec<WireGuardPeerPlan>) -> (r: bool)
    ensures
        r == (forall|i: int| 0 <= i < peers@.len() - 1 ==> #[trigger] peers_ascend_at(peers@, i)),
{
    let mut i: usize = 0;
    while i < peers.len() && i + 1 < peers.len()
        invariant
            forall|j: int| 0 <= j < i && j < peers@.len() - 1 ==> #[trigger] peers_ascend_at(peers@, j),
        decreases peers@.len() - i,
    {
        if !peer_less(&peers[i], &peers[i + 1]) {
            assert(!peers_ascend_at(peers@, i as int));
            return false;
        }
        i = i + 1;
    }
    true
}

fn observations_named(e: &WireGuardMtuEnvelope, peers: &Vec<WireGuardPeerPlan>) -> (r: bool)
    ensures
        r == (forall|k: int| 0 <= k < e.observations@.len() ==> observation_named(peers@, #[trigger] e.observations@[k])),
{
    let mut k: usize = 0;
    while k < e.observations.len()
        invariant
            k <= e.observations@.len(),
            forall|a: int| 0 <= a < k ==> observation_named(peers@, #[trigger] e.observations@[a]),
        decreases e.observations@.len() - k,
    {
        let mut i: usize = 0;
        let mut found = false;
        while i < peers.len()
            invariant
                i <= peers@.len(),
                k < e.observations@.len(),
                forall|a: int| 0 <= a < k ==> observation_named(peers@, #[trigger] e.observations@[a]),
                !found ==> forall|j: int| 0 <= j < i ==> (#[trigger] peers@[j]).node_uid@ != e.observations@[k as int].peer_node_uid@,
                found ==> exists|j: int| 0 <= j < peers@.len() && (#[trigger] peers@[j]).node_uid@ == e.observations@[k as int].peer_node_uid@,
            decreases peers@.len() - i,
        {
            if !found && text_eq(peers[i].node_uid.as_str(), e.observations[k].peer_node_uid.as_str()) {
                found = true;
            }
            i = i + 1;
        }
        if found {
            assert(observation_named(peers@, e.observations@[k as int]));
        }
        if !found {
            proof {
                if exists|j: int| 0 <= j < peers@.len() && (#[trigger] peers@[j]).node_uid@
                    == e.observations@[k as int].peer_node_uid@ {
                    let j = choose|j: int| 0 <= j < peers@.len() && (#[trigger] peers@[j]).node_uid@
                        == e.observations@[k as int].peer_node_uid@;
                    assert(peers@[j].node_uid@ != e.observations@[k as int].peer_node_uid@);
                }
            }
            return false;
        }
        k = k + 1;
    }
    true
}

fn collect_allowed(peers: &Vec<WireGuardPeerPlan>) -> (r: Vec<IpPrefix>)
    ensures
        r@ == plan_allowed(peers@),
{
    let mut all: Vec<IpPrefix> = Vec::new();
    let mut i: usize = 0;
    while i < peers.len()
        invariant
            i <= peers@.len(),
            all@ == plan_allowed(peers@.take(i as int)),
        decreases peers@.len() - i,
    {
        let mut k: usize = 0;
        let ghost base = all@;
        while k < peers[i].allowed_ips.len()
            invariant
                i < peers@.len(),
                k <= peers@[i as int].allowed_ips@.len(),
                all@ == base + peers@[i as int].allowed_ips@.take(k as int),
            decreases peers@[i as int].allowed_ips@.len() - k,
        {
            all.push(peers[i].allowed_ips[k]);
            proof {
                assert(peers@[i as int].allowed_ips@.take(k + 1) =~= peers@[i as int].allowed_ips@.take(k as int).push(
                    peers@[i as int].allowed_ips@[k as int],
                ));
                assert(all@ =~= base + peers@[i as int].allowed_ips@.take(k + 1));
            }
            k = k + 1;
        }
        proof {
            assert(peers@[i as int].allowed_ips@.take(k as int) =~= peers@[i as int].allowed_ips@);
            assert(peers@.take(i + 1).drop_last() =~= peers@.take(i as int));
            assert(peers@.take(i + 1).last() == peers@[i as int]);
        }
        i = i + 1;
    }
    assert(peers@.take(i as int) =~= peers@);
    all
}

proof fn lemma_prefix_key_eq_same(s: Seq<IpPrefix>)
    ensures
        forall|i: int, j: int|
            0 <= i < s.len() && 0 <= j < s.len() && crate::sorting::key_eq(#[trigger] s[i], #[trigger] s[j]) ==> s[i]
                == s[j],
{
    assert forall|i: int, j: int|
        0 <= i < s.len() && 0 <= j < s.len() && crate::sorting::key_eq(#[trigger] s[i], #[trigger] s[j]) implies s[i]
            == s[j] by {
        crate::address::lemma_prefix_total(s[i], s[j]);
    }
}

fn unambiguous(all: Vec<IpPrefix>) -> (r: bool)
    ensures
        r == allowed_unambiguous(all@),
{
    let ghost input = all@;
    let s = sort_by_key(all);
    let mut i: usize = 0;
    while i < s.len() && i + 1 < s.len()
        invariant
            input == all@,
            sorted_by_key(s@),
            s@.to_multiset() == input.to_multiset(),
            forall|j: int| 0 <= j < i && j < s@.len() - 1 ==> !prefixes_overlap(#[trigger] s@[j], s@[j + 1]),
        decreases s@.len() - i,
    {
        if s[i].overlaps(s[i + 1]) {
            proof {
                if allowed_unambiguous(input) {
                    let t = choose|t: Seq<IpPrefix>| #[trigger] sorted_by_key(t) && t.to_multiset() == input.to_multiset()
                        && adjacent_disjoint(t);
                    lemma_prefix_key_eq_same(s@);
                    crate::sorting::lemma_sorted_same(s@, t);
                    assert(s@ == t);
                    assert(adjacent_disjoint(t));
                    assert(0 <= i < t.len() - 1);
                    assert(!prefixes_overlap(t[i as int], t[i + 1]));
                    assert(prefixes_overlap(s@[i as int], s@[i + 1]));
                    assert(false);
                }
                assert(!allowed_unambiguous(input));
            }
            return false;
        }
        i = i + 1;
    }
    assert(adjacent_disjoint(s@));
    assert(sorted_by_key(s@));
    true
}

impl WireGuardKernelPlan {
    /// Checks the plan's canonical shape against the IPAM beacons of its
    /// Node blocks.
    #[verifier::rlimit(40)]
    fn validate_shape(&self, beacons: &Vec<ProofBeacon>) -> (r: Result<(), WireGuardKernelError>)
        ensures
            r is Ok <==> plan_shape_ok(*self, beacons@),
            self.schema_version != WIREGUARD_KERNEL_PROVIDER_SCHEMA_VERSION && mtu_envelope_ok(self.mtu_envelope) ==> r
                == Err::<(), WireGuardKernelError>(
                WireGuardKernelError::UnsupportedProviderSchema(self.schema_version),
            ),
            !mtu_envelope_ok(self.mtu_envelope) ==> (r matches Err(e) && e is InvalidMtuEnvelope),
    {
        self.mtu_envelope.verify()?;
        let derived = derive_wireguard_proof_addresses(&self.local_pod_cidrs, beacons);
        let proof_addresses_match = match &derived {
            Ok(v) => {
                let mut same = v.len() == self.proof_addresses.len();
                let mut k: usize = 0;
                while same && k < v.len()
                    invariant
                        !same ==> v@ != self.proof_addresses@,
                        same ==> v@.len() == self.proof_addresses@.len(),
                        same ==> forall|j: int| 0 <= j < k ==> v@[j] == self.proof_addresses@[j],
                        k <= v@.len(),
                    decreases v@.len() - k,
                {
                    if v[k] != self.proof_addresses[k] {
                        assert(v@[k as int] != self.proof_addresses@[k as int]);
                        same = false;
                    }
                    k = k + 1;
                }
                proof {
                    if same {
                        assert(v@ =~= self.proof_addresses@);
                    }
                }
                same
            },
            Err(_) => false,
        };
        if self.schema_version != WIREGUARD_KERNEL_PROVIDER_SCHEMA_VERSION {
            return Err(WireGuardKernelError::UnsupportedProviderSchema(self.schema_version));
        }
        let alias = owner_alias_of(self.cluster_id.as_str(), self.local_node_uid.as_str(), self.epoch);
        let alias_bytes = self.owner_alias.as_str().as_bytes();
        proof {
            if derived is Ok && proof_addresses_ok(self.proof_addresses@) && self.proof_addresses@.to_multiset()
                == beacon_prefixes(self.local_pod_cidrs@, beacons@).to_multiset() {
                crate::sorting::lemma_sorted_unique(derived->Ok_0@, self.proof_addresses@);
            }
        }
        if !validate_text(self.cluster_id.as_str()) || !validate_text(self.local_node_uid.as_str()) || self.epoch == 0
            || self.revision.0 == 0 || !valid_interface_name(self.interface_name.as_str()) || !bytes_equal(
            alias_bytes,
            &alias,
        ) || alias_bytes.len() > MAX_WIREGUARD_OWNER_ALIAS_BYTES || bytes32_is_zero(&self.local_public_key.0)
            || self.listen_port == 0 || self.fwmark == 0 || self.route_table == 0 || !proof_addresses_match
            || !proof_addresses_checked(&self.proof_addresses) || self.peers.len() == 0 || self.peers.len()
            > MAX_WIREGUARD_PEERS {
            return Err(WireGuardKernelError::InvalidPlan);
        }
        let n = self.peers.len();
        let mut i: usize = 0;
        while i < n
            invariant
                n == self.peers@.len(),
                i <= n,
                self.schema_version == WIREGUARD_KERNEL_PROVIDER_SCHEMA_VERSION,
                mtu_envelope_ok(self.mtu_envelope),
                forall|j: int| 0 <= j < i ==> peer_plan_ok(*self, #[trigger] self.peers@[j]),
            decreases n - i,
        {
            if !peer_checked(self, &self.peers[i]) {
                return Err(WireGuardKernelError::InvalidPlan);
            }
            if !envelope_covers_peer(&self.mtu_envelope, &self.peers[i]) {
                return Err(WireGuardKernelError::InvalidMtuEnvelope);
            }
            i = i + 1;
        }
        if !peers_distinct(&self.peers) || !peers_ascending(&self.peers) {
            return Err(WireGuardKernelError::InvalidPlan);
        }
        let all = collect_allowed(&self.peers);
        if all.len() > MAX_WIREGUARD_ALLOWED_IPS {
            return Err(WireGuardKernelError::CapacityExceeded);
        }
        if !observations_named(&self.mtu_envelope, &self.peers) {
            return Err(WireGuardKernelError::InvalidMtuEnvelope);
        }
        if !unambiguous(all) {
            return Err(WireGuardKernelError::AmbiguousAllowedIp);
        }
        Ok(())
    }
}

} // verus!

verus! {

pub const PLAN_DIGEST_DOMAIN: &'static str = "unf.wireguard-kernel-plan.v3";

pub open spec fn family_code(f: UnderlayAddressFamily) -> u8 {
    match f {
        UnderlayAddressFamily::Ipv4 => 4,
        UnderlayAddressFamily::Ipv6 => 6,
    }
}

fn family_code_of(f: UnderlayAddressFamily) -> (r: u8)
    ensures
        r == family_code(f),
{
    match f {
        UnderlayAddressFamily::Ipv4 => 4,
        UnderlayAddressFamily::Ipv6 => 6,
    }
}

impl Encode for crate::kernel_provider::UnderlayMtuObservation {
    open spec fn enc(self) -> Seq<u8> {
        text_bytes(self.peer_node_uid@) + u8_bytes(family_code(self.family)) + u32_bytes(self.underlay_mtu)
    }

    fn push_enc(&self, out: &mut Vec<u8>) {
        push_text(out, self.peer_node_uid.as_str());
        push_u8(out, family_code_of(self.family));
        push_u32(out, self.underlay_mtu);
        assert(final(out)@ =~= old(out)@ + self.enc());
    }
}

impl Encode for WireGuardPeerPlan {
    open spec fn enc(self) -> Seq<u8> {
        text_bytes(self.node_uid@) + raw_bytes(self.public_key.0@) + self.endpoint.ip.enc() + u16_bytes(
            self.endpoint.port,
        ) + u16_bytes(self.persistent_keepalive_seconds) + list_enc(self.allowed_ips@)
    }

    fn push_enc(&self, out: &mut Vec<u8>) {
        push_text(out, self.node_uid.as_str());
        push_raw32(out, &self.public_key.0);
        self.endpoint.ip.push_enc(out);
        push_u16(out, self.endpoint.port);
        push_u16(out, self.persistent_keepalive_seconds);
        push_list(out, &self.allowed_ips);
        assert(final(out)@ =~= old(out)@ + self.enc());
    }
}

pub open spec fn envelope_bytes(e: WireGuardMtuEnvelope) -> Seq<u8> {
    u32_bytes(e.interface_mtu) + text_bytes(e.limiting_peer_node_uid@) + u8_bytes(family_code(e.limiting_family))
        + u32_bytes(e.limiting_underlay_mtu) + u32_bytes(e.encapsulation_overhead) + list_enc(e.observations@)
}

pub open spec fn activation_code(a: WireGuardEpochActivation) -> u8 {
    match a {
        WireGuardEpochActivation::InactiveStaged => 0,
        WireGuardEpochActivation::Active => 1,
    }
}

/// Everything a plan commits to but its own digest.
pub open spec fn plan_material(p: WireGuardKernelPlan) -> Seq<u8> {
    u16_bytes(p.schema_version) + text_bytes(p.cluster_id@) + text_bytes(p.local_node_uid@) + u64_bytes(p.epoch)
        + u64_bytes(p.revision.0) + text_bytes(p.interface_name@) + text_bytes(p.owner_alias@) + raw_bytes(
        p.local_public_key.0@,
    ) + u16_bytes(p.listen_port) + u32_bytes(p.fwmark) + u32_bytes(p.route_table) + envelope_bytes(p.mtu_envelope)
        + list_enc(p.local_pod_cidrs@) + list_enc(p.proof_addresses@) + u8_bytes(activation_code(p.activation))
        + list_enc(p.peers@)
}

pub open spec fn plan_digest_spec(p: WireGuardKernelPlan) -> Seq<u8> {
    sha256_spec(text_bytes(PLAN_DIGEST_DOMAIN@) + plan_material(p))
}

/// What `WireGuardKernelPlan::verify` accepts.
pub open spec fn plan_ok(p: WireGuardKernelPlan, beacons: Seq<ProofBeacon>) -> bool {
    plan_shape_ok(p, beacons) && p.plan_digest.0@ == plan_digest_spec(p)
}

/// The AllowedIPs of every peer, as a set.
pub open spec fn route_prefix_set(p: WireGuardKernelPlan) -> Set<IpPrefix> {
    plan_allowed(p.peers@).to_set()
}

fn push_envelope(out: &mut Vec<u8>, e: &WireGuardMtuEnvelope)
    ensures
        final(out)@ == old(out)@ + envelope_bytes(*e),
{
    push_u32(out, e.interface_mtu);
    push_text(out, e.limiting_peer_node_uid.as_str());
    push_u8(out, family_code_of(e.limiting_family));
    push_u32(out, e.limiting_underlay_mtu);
    push_u32(out, e.encapsulation_overhead);
    push_list(out, &e.observations);
    assert(final(out)@ =~= old(out)@ + envelope_bytes(*e));
}

#[verifier::spinoff_prover]
#[verifier::rlimit(40)]
fn push_plan_material(out: &mut Vec<u8>, p: &WireGuardKernelPlan)
    ensures
    final(out)@ == old(out)@ + plan_material(*p),
{
    push_u16(out, p.schema_version);
    push_text(out, p.cluster_id.as_str());
    push_text(out, p.local_node_uid.as_str());
    push_u64(out, p.epoch);
    push_u64(out, p.revision.0);
    push_text(out, p.interface_name.as_str());
    push_text(out, p.owner_alias.as_str());
    push_raw32(out, &p.local_public_key.0);
    push_u16(out, p.listen_port);
    push_u32(out, p.fwmark);
    push_u32(out, p.route_table);
    push_envelope(out, &p.mtu_envelope);
    push_list(out, &p.local_pod_cidrs);
    push_list(out, &p.proof_addresses);
    let a: u8 = match p.activation {
        WireGuardEpochActivation::InactiveStaged => 0,
        WireGuardEpochActivation::Active => 1,
    };
    push_u8(out, a);
    push_list(out, &p.peers);
    assert(final(out)@ =~= old(out)@ + plan_material(*p));
}

impl WireGuardKernelPlan {
    /// The digest of everything the plan commits to but its own digest.
    #[verifier::spinoff_prover]
    #[verifier::rlimit(40)]
    pub fn calculate_digest(&self) -> (d: WireGuardKernelPlanDigest)
        ensures
            d.0@ == plan_digest_spec(*self),
    {
        let mut m: Vec<u8> = Vec::new();
        push_text(&mut m, PLAN_DIGEST_DOMAIN);
        push_plan_material(&mut m, self);
        assert(m@ =~= text_bytes(PLAN_DIGEST_DOMAIN@) + plan_material(*self));
        WireGuardKernelPlanDigest(sha256(&m))
    }

    /// Verifies the canonical shape, against the IPAM beacons of the Node
    /// blocks, and the domain-separated plan digest.
    pub fn verify(&self, beacons: &Vec<ProofBeacon>) -> (r: Result<(), WireGuardKernelError>)
        ensures
            r is Ok <==> plan_ok(*self, beacons@),
            plan_shape_ok(*self, beacons@) && !plan_ok(*self, beacons@) ==> r == Err::<(), WireGuardKernelError>(
                WireGuardKernelError::PlanDigestMismatch,
            ),
            self.schema_version != WIREGUARD_KERNEL_PROVIDER_SCHEMA_VERSION && mtu_envelope_ok(self.mtu_envelope) ==> r
                == Err::<(), WireGuardKernelError>(
                WireGuardKernelError::UnsupportedProviderSchema(self.schema_version),
            ),
    {
        self.validate_shape(beacons)?;
        let d = self.calculate_digest();
        if !bytes32_eq(&self.plan_digest.0, &d.0) {
            return Err(WireGuardKernelError::PlanDigestMismatch);
        }
        Ok(())
    }

    /// Every AllowedIP of the plan's peers, once each, ascending.
    /// The private key is the one whose public key the plan names.
    pub fn verify_private_key(&self, private_key: &WireGuardPrivateKey) -> (r: Result<(), WireGuardKernelError>)
        ensures
            r is Ok <==> crate::keys::x25519_public_spec(private_key.secret()) == self.local_public_key.0@,
            r is Err ==> r->Err_0 is PrivateKeyMismatch,
    {
        let public = private_key.public_key();
        if !bytes32_eq(&public.0, &self.local_public_key.0) {
            return Err(WireGuardKernelError::PrivateKeyMismatch);
        }
        Ok(())
    }

    pub fn route_prefixes(&self) -> (r: Vec<IpPrefix>)
        ensures
            strictly_sorted_by_key(r@),
            r@.to_set() == route_prefix_set(*self),
            r@.len() == route_prefix_set(*self).len(),
    {
        let all = collect_allowed(&self.peers);
        let s = sort_by_key(all);
        let mut out: Vec<IpPrefix> = Vec::new();
        let mut i: usize = 0;
        while i < s.len()
            invariant
                i <= s@.len(),
                sorted_by_key(s@),
                strictly_sorted_by_key(out@),
                out@.to_set() == s@.take(i as int).to_set(),
                out@.len() > 0 ==> i > 0 && out@.last() == s@[i - 1],
            decreases s@.len() - i,
        {
            let x = s[i];
            let ghost before = out@;
            let fresh = out.len() == 0 || out[out.len() - 1] != x;
            proof {
                assert(s@.take(i + 1) =~= s@.take(i as int).push(x));
                s@.take(i as int).lemma_push_to_set_commute(x);
                before.lemma_push_to_set_commute(x);
                lemma_prefix_key_eq_same(s@);
            }
            if fresh {
                proof {
                    if before.len() > 0 {
                        crate::address::lemma_prefix_total(before.last(), x);
                        assert(sorted_by_key(s@));
                        assert(!x.key_lt(s@[i - 1]));
                        assert forall|a: int, b: int| 0 <= a < b < before.len() + 1 implies (#[trigger] before.push(x)[a]).key_lt(
                            #[trigger] before.push(x)[b],
                        ) by {
                            if b == before.len() && a < before.len() - 1 {
                                assert(before[a].key_lt(before.last()));
                            }
                        }
                    }
                }
                out.push(x);
                proof {
                    assert(out@ == before.push(x));
                }
            } else {
                proof {
                    assert(before.contains(before.last()));
                    assert(before.to_set().contains(x));
                    assert(before.to_set().insert(x) =~= before.to_set());
                }
            }
            i = i + 1;
        }
        proof {
            assert(s@.take(i as int) =~= s@);
            let flat = plan_allowed(self.peers@);
            assert forall|x: IpPrefix| s@.to_set().contains(x) <==> flat.to_set().contains(x) by {
                vstd::seq_lib::to_multiset_contains(s@, x);
                vstd::seq_lib::to_multiset_contains(flat, x);
            }
            assert(s@.to_set() =~= flat.to_set());
            assert(out@.no_duplicates()) by {
                assert forall|a: int, b: int| 0 <= a < out@.len() && 0 <= b < out@.len() && a != b implies out@[a]
                    != out@[b] by {
                    if a < b {
                        IpPrefix::lemma_key_order(out@[a], out@[b], out@[b]);
                    } else {
                        IpPrefix::lemma_key_order(out@[b], out@[a], out@[a]);
                    }
                }
            }
            out@.unique_seq_to_set();
        }
        out
    }
}

} // verus!

verus! {

impl Keyed for WireGuardPeerPlan {
    open spec fn key_lt(self, other: Self) -> bool {
        peer_lt(self, other)
    }

    proof fn lemma_key_order(a: Self, b: Self, c: Self) {
        let (x, y, z) = (a.node_uid@, b.node_uid@, c.node_uid@);
        crate::text::lemma_text_total(x, y);
        crate::text::lemma_text_total(y, z);
        crate::text::lemma_text_total(x, z);
        crate::text::lemma_text_order_eq(x, x);
        crate::text::lemma_text_order_eq(x, y);
        crate::text::lemma_text_order_eq(y, z);
        crate::text::lemma_text_order_eq(x, z);
        crate::text::lemma_text_order_antisymmetric(x, y);
        crate::text::lemma_text_order_antisymmetric(y, z);
        crate::text::lemma_text_order_antisymmetric(x, z);
        if crate::text::text_lt(x, y) && crate::text::text_lt(y, z) {
            crate::text::lemma_text_lt_transitive(x, y, z);
        }
        if crate::text::text_lt(z, y) && crate::text::text_lt(y, x) {
            crate::text::lemma_text_lt_transitive(z, y, x);
        }
        crate::netlink_readback::lemma_bytes_order(a.public_key.0@, b.public_key.0@, c.public_key.0@);
        crate::netlink_readback::lemma_bytes_order(c.public_key.0@, b.public_key.0@, a.public_key.0@);
        crate::netlink_readback::lemma_bytes_order(b.public_key.0@, a.public_key.0@, c.public_key.0@);
    }

    fn key_less(&self, other: &Self) -> (r: bool) {
        peer_less(self, other)
    }
}

/// What a kernel plan is built from.
#[derive(Clone, Debug)]
pub struct WireGuardKernelPlanInput {
    pub cluster_id: String,
    pub local_node_uid: String,
    pub epoch: u64,
    pub revision: Revision,
    pub interface_name: String,
    pub local_public_key: WireGuardPublicKey,
    pub listen_port: u16,
    pub fwmark: u32,
    pub route_table: u32,
    pub mtu_envelope: WireGuardMtuEnvelope,
    pub local_pod_cidrs: Vec<IpPrefix>,
    pub activation: WireGuardEpochActivation,
    pub peers: Vec<WireGuardPeerPlan>,
}

/// `out` is `peer` with its AllowedIPs sorted.
pub open spec fn peer_sorted_from(out: WireGuardPeerPlan, peer: WireGuardPeerPlan) -> bool {
    &&& out.node_uid == peer.node_uid
    &&& out.public_key == peer.public_key
    &&& out.endpoint == peer.endpoint
    &&& out.persistent_keepalive_seconds == peer.persistent_keepalive_seconds
    &&& out.allowed_ips@.to_multiset() == peer.allowed_ips@.to_multiset()
    &&& sorted_by_key(out.allowed_ips@)
}

fn sort_peer_allowed(peers: Vec<WireGuardPeerPlan>) -> (r: Vec<WireGuardPeerPlan>)
    ensures
        r@.len() == peers@.len(),
        forall|i: int| 0 <= i < r@.len() ==> peer_sorted_from(#[trigger] r@[i], peers@[i]),
{
    let ghost input = peers@;
    let mut out: Vec<WireGuardPeerPlan> = Vec::new();
    let mut rest = peers;
    assert(rest@ =~= input.skip(0));
    while rest.len() > 0
        invariant
            out@.len() + rest@.len() == input.len(),
            rest@ == input.skip(out@.len() as int),
            forall|i: int| 0 <= i < out@.len() ==> peer_sorted_from(#[trigger] out@[i], input[i]),
        decreases rest@.len(),
    {
        let ghost k = out@.len();
        let peer = rest.remove(0);
        assert(peer == input[k as int]);
        let WireGuardPeerPlan { node_uid, public_key, endpoint, persistent_keepalive_seconds, allowed_ips } = peer;
        let sorted = sort_by_key(allowed_ips);
        out.push(WireGuardPeerPlan { node_uid, public_key, endpoint, persistent_keepalive_seconds, allowed_ips: sorted });
        proof {
            assert(rest@ =~= input.skip(out@.len() as int));
        }
    }
    out
}

/// The owner alias as text: `unf:encryption:v2:<cluster>:<node uid>:<epoch>`.
fn owner_alias_text(cluster_id: &str, node_uid: &str, epoch: u64) -> (r: String)
{
    let mut a = String::from_str("unf:encryption:v2:");
    a.append(cluster_id);
    a.append(":");
    a.append(node_uid);
    a.append(":");
    append_decimal(&mut a, epoch);
    a
}

fn append_decimal(a: &mut String, n: u64)
    decreases n,
{
    if n >= 10 {
        append_decimal(a, n / 10);
    }
    let d = n % 10;
    let digit = if d == 0 {
        "0"
    } else if d == 1 {
        "1"
    } else if d == 2 {
        "2"
    } else if d == 3 {
        "3"
    } else if d == 4 {
        "4"
    } else if d == 5 {
        "5"
    } else if d == 6 {
        "6"
    } else if d == 7 {
        "7"
    } else if d == 8 {
        "8"
    } else {
        "9"
    };
    a.append(digit);
}

impl WireGuardKernelPlan {
    /// Creates a canonical, bounded, exact kernel plan: orders the Node
    /// blocks, the peers by Node UID and key, and each peer's AllowedIPs,
    /// derives the proof addresses from the IPAM beacons, names the owner
    /// alias, checks the result, and seals its digest.
    #[verifier::spinoff_prover]
    #[verifier::rlimit(80)]
    pub fn new(input: WireGuardKernelPlanInput, beacons: &Vec<ProofBeacon>) -> (r: Result<Self, WireGuardKernelError>)
        ensures
            !proof_addresses_derivable(input.local_pod_cidrs@, beacons@) ==> r == Err::<Self, WireGuardKernelError>(
                WireGuardKernelError::InvalidPlan,
            ),
            r matches Ok(p) ==> {
                &&& plan_ok(p, beacons@)
                &&& p.cluster_id == input.cluster_id
                &&& p.local_node_uid == input.local_node_uid
                &&& p.epoch == input.epoch
                &&& p.revision == input.revision
                &&& p.interface_name == input.interface_name
                &&& p.local_public_key == input.local_public_key
                &&& p.listen_port == input.listen_port
                &&& p.fwmark == input.fwmark
                &&& p.route_table == input.route_table
                &&& p.activation == input.activation
                &&& p.local_pod_cidrs@.to_multiset() == input.local_pod_cidrs@.to_multiset()
                &&& sorted_by_key(p.local_pod_cidrs@)
                &&& p.peers@.len() == input.peers@.len()
                &&& exists|sorted: Seq<WireGuardPeerPlan>|
                    #![trigger sorted.to_multiset()]
                    sorted.len() == input.peers@.len() && (forall|i: int|
                        0 <= i < sorted.len() ==> peer_sorted_from(#[trigger] sorted[i], input.peers@[i]))
                        && p.peers@.to_multiset() == sorted.to_multiset()
            },
    {
        let WireGuardKernelPlanInput {
            cluster_id,
            local_node_uid,
            epoch,
            revision,
            interface_name,
            local_public_key,
            listen_port,
            fwmark,
            route_table,
            mtu_envelope,
            local_pod_cidrs,
            activation,
            peers,
        } = input;
        let blocks = sort_by_key(local_pod_cidrs);
        let ghost input_blocks = input.local_pod_cidrs@;
        proof {
            lemma_blocks_permuted(input_blocks, blocks@, beacons@);
        }
        let proof_addresses = derive_wireguard_proof_addresses(&blocks, beacons)?;
        let with_sorted_allowed = sort_peer_allowed(peers);
        let ghost unsorted = with_sorted_allowed@;
        let sorted_peers = sort_by_key(with_sorted_allowed);
        let owner_alias = owner_alias_text(cluster_id.as_str(), local_node_uid.as_str(), epoch);
        let mut plan = WireGuardKernelPlan {
            schema_version: WIREGUARD_KERNEL_PROVIDER_SCHEMA_VERSION,
            cluster_id,
            local_node_uid,
            epoch,
            revision,
            interface_name,
            owner_alias,
            local_public_key,
            listen_port,
            fwmark,
            route_table,
            mtu_envelope,
            local_pod_cidrs: blocks,
            proof_addresses,
            activation,
            peers: sorted_peers,
            plan_digest: WireGuardKernelPlanDigest([0u8; 32]),
        };
        plan.validate_shape(beacons)?;
        let ghost shaped = plan;
        let d = plan.calculate_digest();
        plan.plan_digest = d;
        proof {
            assert(plan == WireGuardKernelPlan { plan_digest: d, ..shaped });
            assert(plan_material(plan) == plan_material(shaped));
            assert(plan_shape_ok(plan, beacons@));
            assert(plan_ok(plan, beacons@));
        }
        proof {
            assert(unsorted.len() == input.peers@.len());
            assert(plan.peers@.to_multiset() == unsorted.to_multiset());
            vstd::seq_lib::to_multiset_len(plan.peers@);
            vstd::seq_lib::to_multiset_len(unsorted);
            assert(plan.peers@.len() == input.peers@.len());
            assert(plan.cluster_id == input.cluster_id && plan.local_node_uid == input.local_node_uid);
            assert(plan.local_pod_cidrs@.to_multiset() == input.local_pod_cidrs@.to_multiset());
            assert(forall|i: int| 0 <= i < unsorted.len() ==> peer_sorted_from(#[trigger] unsorted[i], input.peers@[i]));
        }
        Ok(plan)
    }
}

/// Reordering the Node blocks changes neither whether proof addresses can
/// be derived nor which they are.
proof fn lemma_blocks_permuted(a: Seq<IpPrefix>, b: Seq<IpPrefix>, beacons: Seq<ProofBeacon>)
    requires
        a.to_multiset() == b.to_multiset(),
    ensures
        proof_addresses_derivable(a, beacons) == proof_addresses_derivable(b, beacons),
        beacon_prefixes(a, beacons).to_multiset() == beacon_prefixes(b, beacons).to_multiset(),
{
    lemma_blocks_permuted_one_way(a, b, beacons);
    lemma_blocks_permuted_one_way(b, a, beacons);
}

proof fn lemma_blocks_permuted_one_way(a: Seq<IpPrefix>, b: Seq<IpPrefix>, beacons: Seq<ProofBeacon>)
    requires
        a.to_multiset() == b.to_multiset(),
    ensures
        proof_addresses_derivable(a, beacons) ==> proof_addresses_derivable(b, beacons),
        beacon_prefixes(a, beacons).to_multiset() == beacon_prefixes(b, beacons).to_multiset(),
{
    vstd::seq_lib::to_multiset_len(a);
    vstd::seq_lib::to_multiset_len(b);
    let f = |x: IpPrefix| host_prefix_of(beacon_for(beacons, x)->0);
    crate::sorting::lemma_map_multiset(a, b, f);
    assert(beacon_prefixes(a, beacons) =~= a.map_values(f));
    assert(beacon_prefixes(b, beacons) =~= b.map_values(f));
    if proof_addresses_derivable(a, beacons) {
        assert forall|i: int| 0 <= i < b.len() implies prefix_canonical(#[trigger] b[i]) && beacon_for(beacons, b[i]) is Some by {
            assert(b.contains(b[i]));
            vstd::seq_lib::to_multiset_contains(b, b[i]);
            vstd::seq_lib::to_multiset_contains(a, b[i]);
            let k = choose|k: int| 0 <= k < a.len() && a[k] == b[i];
            assert(prefix_canonical(a[k]));
            assert(beacon_for(beacons, a[k]) is Some);
        }
        crate::reorder::lemma_pairwise_transfer(a, b, |x: IpPrefix, y: IpPrefix| prefixes_overlap(x, y));
        let pa = beacon_prefixes(a, beacons);
        let pb = beacon_prefixes(b, beacons);
        vstd::seq_lib::to_multiset_len(pa);
        vstd::seq_lib::to_multiset_len(pb);
        crate::reorder::lemma_pairwise_transfer(pa, pb, |x: IpPrefix, y: IpPrefix| crate::sorting::key_eq(x, y));
    }
}

} // verus!

verus! {

/// The readback peer carries exactly the planned peer's key, endpoint,
/// keepalive, and AllowedIPs.
pub open spec fn peer_readback_matches(o: crate::netlink_readback::WireGuardPeerReadback, e: WireGuardPeerPlan) -> bool {
    &&& o.public_key.0@ == e.public_key.0@
    &&& o.endpoint == e.endpoint
    &&& o.persistent_keepalive_seconds == e.persistent_keepalive_seconds
    &&& o.allowed_ips@ == e.allowed_ips@
}

/// The readback route is one of the plan's AllowedIPs, on the interface, in
/// the plan's table, owned and scoped as the provider installs it.
pub open spec fn route_readback_matches(
    r: crate::netlink_readback::WireGuardRouteReadback,
    s: crate::kernel_snapshot::WireGuardKernelSnapshot,
    plan: WireGuardKernelPlan,
) -> bool {
    &&& route_prefix_set(plan).contains(r.prefix)
    &&& r.interface_index == s.interface_index
    &&& r.table == plan.route_table
    &&& r.protocol == crate::kernel_provider::UNF_WIREGUARD_ROUTE_PROTOCOL
    &&& r.scope == crate::netlink_readback::scope_for(r.prefix)
}

/// The readback is exactly the planned device, peer for peer and route for
/// route.
pub open spec fn readback_matches(s: crate::kernel_snapshot::WireGuardKernelSnapshot, plan: WireGuardKernelPlan) -> bool {
    &&& s.schema_version == crate::kernel_provider::WIREGUARD_KERNEL_SNAPSHOT_SCHEMA_VERSION
    &&& s.interface_name@ == plan.interface_name@
    &&& s.interface_index != 0
    &&& s.owner_alias@ == plan.owner_alias@
    &&& s.is_up
    &&& s.mtu == plan.mtu_envelope.interface_mtu
    &&& s.public_key.0@ == plan.local_public_key.0@
    &&& s.listen_port == plan.listen_port
    &&& s.fwmark == plan.fwmark
    &&& s.proof_addresses@ == plan.proof_addresses@
    &&& s.peers@.len() == plan.peers@.len()
    &&& forall|i: int| 0 <= i < s.peers@.len() ==> peer_readback_matches(#[trigger] s.peers@[i], plan.peers@[i])
    &&& s.routes@.len() == route_prefix_set(plan).len()
    &&& forall|i: int| 0 <= i < s.routes@.len() ==> route_readback_matches(#[trigger] s.routes@[i], s, plan)
}

fn prefixes_equal(a: &Vec<IpPrefix>, b: &Vec<IpPrefix>) -> (r: bool)
    ensures
        r == (a@ == b@),
{
    if a.len() != b.len() {
        return false;
    }
    let mut i: usize = 0;
    while i < a.len()
        invariant
            a@.len() == b@.len(),
            i <= a@.len(),
            forall|j: int| 0 <= j < i ==> a@[j] == b@[j],
        decreases a@.len() - i,
    {
        if a[i] != b[i] {
            return false;
        }
        i = i + 1;
    }
    assert(a@ =~= b@);
    true
}

fn prefix_listed_in(v: &Vec<IpPrefix>, x: IpPrefix) -> (r: bool)
    ensures
        r == v@.contains(x),
{
    let mut i: usize = 0;
    while i < v.len()
        invariant
            i <= v@.len(),
            forall|j: int| 0 <= j < i ==> v@[j] != x,
        decreases v@.len() - i,
    {
        if v[i] == x {
            return true;
        }
        i = i + 1;
    }
    false
}

impl crate::kernel_snapshot::WireGuardKernelSnapshot {
    /// Accepts the readback only when the plan verifies, the readback is
    /// internally consistent, and it is exactly the planned device.
    pub fn verify_against(&self, plan: &WireGuardKernelPlan, beacons: &Vec<ProofBeacon>) -> (r: Result<
        (),
        WireGuardKernelError,
    >)
        ensures
            r is Ok <==> plan_ok(*plan, beacons@) && crate::kernel_snapshot::snapshot_ok(*self) && readback_matches(
                *self,
                *plan,
            ),
            !plan_ok(*plan, beacons@) ==> r is Err,
            plan_ok(*plan, beacons@) && r is Err ==> r->Err_0 is ReadbackMismatch,
    {
        plan.verify(beacons)?;
        self.verify_integrity()?;
        if self.schema_version != crate::kernel_provider::WIREGUARD_KERNEL_SNAPSHOT_SCHEMA_VERSION || !text_eq(
            self.interface_name.as_str(),
            plan.interface_name.as_str(),
        ) || self.interface_index == 0 || !text_eq(self.owner_alias.as_str(), plan.owner_alias.as_str()) || !self.is_up
            || self.mtu != plan.mtu_envelope.interface_mtu || !bytes32_eq(&self.public_key.0, &plan.local_public_key.0)
            || self.listen_port != plan.listen_port || self.fwmark != plan.fwmark || !prefixes_equal(
            &self.proof_addresses,
            &plan.proof_addresses,
        ) || self.peers.len() != plan.peers.len() {
            return Err(WireGuardKernelError::ReadbackMismatch);
        }
        let mut i: usize = 0;
        while i < self.peers.len()
            invariant
                self.peers@.len() == plan.peers@.len(),
                i <= self.peers@.len(),
                forall|j: int| 0 <= j < i ==> peer_readback_matches(#[trigger] self.peers@[j], plan.peers@[j]),
            decreases self.peers@.len() - i,
        {
            let o = &self.peers[i];
            let e = &plan.peers[i];
            if !bytes32_eq(&o.public_key.0, &e.public_key.0) || o.endpoint != e.endpoint
                || o.persistent_keepalive_seconds != e.persistent_keepalive_seconds || !prefixes_equal(
                &o.allowed_ips,
                &e.allowed_ips,
            ) {
                return Err(WireGuardKernelError::ReadbackMismatch);
            }
            i = i + 1;
        }
        let expected = plan.route_prefixes();
        if self.routes.len() != expected.len() {
            return Err(WireGuardKernelError::ReadbackMismatch);
        }
        let mut k: usize = 0;
        while k < self.routes.len()
            invariant
                k <= self.routes@.len(),
                expected@.to_set() == route_prefix_set(*plan),
                forall|j: int| 0 <= j < k ==> route_readback_matches(#[trigger] self.routes@[j], *self, *plan),
            decreases self.routes@.len() - k,
        {
            let rt = &self.routes[k];
            let scope = crate::kernel_provider::WireGuardRouteScope::for_prefix(rt.prefix);
            let listed = prefix_listed_in(&expected, rt.prefix);
            proof {
                if listed {
                    assert(expected@.to_set().contains(rt.prefix));
                } else {
                    assert(!expected@.to_set().contains(rt.prefix));
                }
            }
            if !listed || rt.interface_index != self.interface_index || rt.table != plan.route_table || rt.protocol
                != crate::kernel_provider::UNF_WIREGUARD_ROUTE_PROTOCOL || rt.scope != scope {
                return Err(WireGuardKernelError::ReadbackMismatch);
            }
            k = k + 1;
        }
        Ok(())
    }
}

} // verus!

verus! {

pub const TRANSACTION_DIGEST_DOMAIN: &'static str = "unf.proof-carrying-kernel-transaction.v1";

#[derive(Clone, Copy, Debug, PartialEq, Eq, Structural)]
pub enum KernelTransactionPhase {
    Prepared,
    Committed,
    RolledBack,
}

#[derive(Clone, Copy, Debug)]
pub struct ProofCarryingKernelTransactionDigest(pub [u8; 32]);

/// A secret-free transaction bound to the before and desired kernel states.
#[derive(Clone, Debug)]
pub struct ProofCarryingKernelTransaction {
    pub schema_version: u16,
    pub transaction_revision: Revision,
    pub plan: WireGuardKernelPlan,
    pub before_configuration_digest: Option<WireGuardKernelConfigurationDigest>,
    pub phase: KernelTransactionPhase,
    pub readback_configuration_digest: Option<WireGuardKernelConfigurationDigest>,
    pub transaction_digest: ProofCarryingKernelTransactionDigest,
}

#[derive(Clone, Copy, Debug, PartialEq, Eq, Structural)]
pub enum KernelRecoveryAction {
    ApplyDesired,
    CommitObservedDesired,
    RollbackComplete,
    RefuseUnknownState,
}

pub open spec fn opt_configuration(o: Option<WireGuardKernelConfigurationDigest>) -> Option<Seq<u8>> {
    match o {
        Some(d) => Some(d.0@),
        None => None,
    }
}

pub open spec fn kernel_phase_code(p: KernelTransactionPhase) -> u8 {
    match p {
        KernelTransactionPhase::Prepared => 0,
        KernelTransactionPhase::Committed => 1,
        KernelTransactionPhase::RolledBack => 2,
    }
}

/// Everything a kernel transaction commits to but its own digest.
pub open spec fn kernel_transaction_material(t: ProofCarryingKernelTransaction) -> Seq<u8> {
    u16_bytes(t.schema_version) + u64_bytes(t.transaction_revision.0) + plan_material(t.plan) + raw_bytes(
        t.plan.plan_digest.0@,
    ) + opt_raw_bytes(opt_configuration(t.before_configuration_digest)) + u8_bytes(kernel_phase_code(t.phase))
        + opt_raw_bytes(opt_configuration(t.readback_configuration_digest))
}

pub open spec fn kernel_transaction_digest_spec(t: ProofCarryingKernelTransaction) -> Seq<u8> {
    sha256_spec(text_bytes(TRANSACTION_DIGEST_DOMAIN@) + kernel_transaction_material(t))
}

/// What `ProofCarryingKernelTransaction::verify` accepts.
pub open spec fn kernel_transaction_ok(t: ProofCarryingKernelTransaction, beacons: Seq<ProofBeacon>) -> bool {
    &&& plan_ok(t.plan, beacons)
    &&& t.schema_version == crate::kernel_provider::PROOF_CARRYING_KERNEL_TRANSACTION_SCHEMA_VERSION
    &&& t.transaction_revision.0 != 0
    &&& (t.phase == KernelTransactionPhase::Committed) == t.readback_configuration_digest is Some
    &&& t.transaction_digest.0@ == kernel_transaction_digest_spec(t)
}

/// The readback is exactly the transaction's planned device.
pub open spec fn readback_of_plan(s: WireGuardKernelSnapshot, plan: WireGuardKernelPlan) -> bool {
    snapshot_ok(s) && readback_matches(s, plan)
}

/// The restart action for a verified transaction and what is observed.
pub open spec fn kernel_recovery_action(t: ProofCarryingKernelTransaction, observed: Option<WireGuardKernelSnapshot>) -> KernelRecoveryAction {
    match (t.phase, observed) {
        (KernelTransactionPhase::Prepared, None) => KernelRecoveryAction::ApplyDesired,
        (KernelTransactionPhase::Prepared, Some(s)) => if readback_of_plan(s, t.plan) {
            KernelRecoveryAction::CommitObservedDesired
        } else {
            KernelRecoveryAction::RefuseUnknownState
        },
        (KernelTransactionPhase::Committed, Some(s)) => if readback_of_plan(s, t.plan)
            && opt_configuration(t.readback_configuration_digest) == Some(s.configuration_digest.0@) {
            KernelRecoveryAction::CommitObservedDesired
        } else {
            KernelRecoveryAction::RefuseUnknownState
        },
        (KernelTransactionPhase::RolledBack, None) => KernelRecoveryAction::RollbackComplete,
        _ => KernelRecoveryAction::RefuseUnknownState,
    }
}

/// `t` is `old` with a new phase and readback digest, sealed again.
pub open spec fn kernel_moved_to(
    t: ProofCarryingKernelTransaction,
    old: ProofCarryingKernelTransaction,
    phase: KernelTransactionPhase,
    readback: Option<WireGuardKernelConfigurationDigest>,
) -> bool {
    &&& t.schema_version == old.schema_version
    &&& t.transaction_revision == old.transaction_revision
    &&& t.plan == old.plan
    &&& opt_configuration(t.before_configuration_digest) == opt_configuration(old.before_configuration_digest)
    &&& t.phase == phase
    &&& opt_configuration(t.readback_configuration_digest) == opt_configuration(readback)
    &&& t.transaction_digest.0@ == kernel_transaction_digest_spec(t)
}

fn opt_configuration_of(o: &Option<WireGuardKernelConfigurationDigest>) -> (r: Option<[u8; 32]>)
    ensures
        match r {
            Some(b) => opt_configuration(*o) == Some(b@),
            None => opt_configuration(*o) is None,
        },
{
    match o {
        Some(d) => Some(d.0),
        None => None,
    }
}

impl ProofCarryingKernelTransaction {
    #[verifier::spinoff_prover]
    #[verifier::rlimit(40)]
    fn calculate_digest(&self) -> (d: ProofCarryingKernelTransactionDigest)
        ensures
            d.0@ == kernel_transaction_digest_spec(*self),
    {
        let mut m: Vec<u8> = Vec::new();
        push_text(&mut m, TRANSACTION_DIGEST_DOMAIN);
        push_u16(&mut m, self.schema_version);
        push_u64(&mut m, self.transaction_revision.0);
        push_plan_material(&mut m, &self.plan);
        push_raw32(&mut m, &self.plan.plan_digest.0);
        push_opt_raw32(&mut m, &opt_configuration_of(&self.before_configuration_digest));
        let code: u8 = match self.phase {
            KernelTransactionPhase::Prepared => 0,
            KernelTransactionPhase::Committed => 1,
            KernelTransactionPhase::RolledBack => 2,
        };
        push_u8(&mut m, code);
        push_opt_raw32(&mut m, &opt_configuration_of(&self.readback_configuration_digest));
        assert(m@ =~= text_bytes(TRANSACTION_DIGEST_DOMAIN@) + kernel_transaction_material(*self));
        ProofCarryingKernelTransactionDigest(sha256(&m))
    }

    /// Verifies the nested plan, schema, phase invariant, and digest.
    pub fn verify(&self, beacons: &Vec<ProofBeacon>) -> (r: Result<(), WireGuardKernelError>)
        ensures
            r is Ok <==> kernel_transaction_ok(*self, beacons@),
            plan_ok(self.plan, beacons@) && r is Err ==> r->Err_0 is InvalidTransaction,
    {
        self.plan.verify(beacons)?;
        let d = self.calculate_digest();
        if self.schema_version != crate::kernel_provider::PROOF_CARRYING_KERNEL_TRANSACTION_SCHEMA_VERSION
            || self.transaction_revision.0 == 0 || (self.phase == KernelTransactionPhase::Committed)
            != self.readback_configuration_digest.is_some() || !bytes32_eq(&self.transaction_digest.0, &d.0) {
            return Err(WireGuardKernelError::InvalidTransaction);
        }
        Ok(())
    }

    /// Begins a secret-free transaction bound to the before and desired
    /// digests. Rejects an invalid revision or plan, or a before state that
    /// is not exactly the planned device.
    pub fn begin(
        transaction_revision: Revision,
        plan: WireGuardKernelPlan,
        before: Option<&WireGuardKernelSnapshot>,
        beacons: &Vec<ProofBeacon>,
    ) -> (r: Result<Self, WireGuardKernelError>)
        ensures
            r is Ok <==> plan_ok(plan, beacons@) && transaction_revision.0 != 0 && (before matches Some(s)
                ==> readback_of_plan(*s, plan)),
            plan_ok(plan, beacons@) && transaction_revision.0 == 0 ==> r == Err::<Self, WireGuardKernelError>(
                WireGuardKernelError::InvalidTransaction,
            ),
            plan_ok(plan, beacons@) && transaction_revision.0 != 0 && r is Err ==> r->Err_0 is ReadbackMismatch,
            r matches Ok(t) ==> {
                &&& kernel_transaction_ok(t, beacons@)
                &&& t.transaction_revision == transaction_revision
                &&& t.plan == plan
                &&& t.phase == KernelTransactionPhase::Prepared
                &&& t.readback_configuration_digest is None
                &&& opt_configuration(t.before_configuration_digest) == match before {
                    Some(s) => Some(s.configuration_digest.0@),
                    None => None,
                }
            },
    {
        plan.verify(beacons)?;
        if transaction_revision.0 == 0 {
            return Err(WireGuardKernelError::InvalidTransaction);
        }
        let before_configuration_digest = match before {
            Some(snapshot) => {
                snapshot.verify_against(&plan, beacons)?;
                Some(snapshot.configuration_digest)
            },
            None => None,
        };
        let mut transaction = ProofCarryingKernelTransaction {
            schema_version: crate::kernel_provider::PROOF_CARRYING_KERNEL_TRANSACTION_SCHEMA_VERSION,
            transaction_revision,
            plan,
            before_configuration_digest,
            phase: KernelTransactionPhase::Prepared,
            readback_configuration_digest: None,
            transaction_digest: ProofCarryingKernelTransactionDigest([0u8; 32]),
        };
        let d = transaction.calculate_digest();
        transaction.transaction_digest = d;
        Ok(transaction)
    }

    /// Commits only an independently verified exact readback.
    #[verifier::spinoff_prover]
    #[verifier::rlimit(80)]
    pub fn commit(&mut self, readback: &WireGuardKernelSnapshot, beacons: &Vec<ProofBeacon>) -> (r: Result<
        (),
        WireGuardKernelError,
    >)
        ensures
            r is Ok <==> kernel_transaction_ok(*old(self), beacons@) && old(self).phase
                == KernelTransactionPhase::Prepared && readback_of_plan(*readback, old(self).plan),
            r is Err ==> *final(self) == *old(self),
            kernel_transaction_ok(*old(self), beacons@) && old(self).phase != KernelTransactionPhase::Prepared ==> r
                == Err::<(), WireGuardKernelError>(WireGuardKernelError::InvalidTransaction),
            r is Ok ==> kernel_moved_to(
                *final(self),
                *old(self),
                KernelTransactionPhase::Committed,
                Some(readback.configuration_digest),
            ) && kernel_transaction_ok(*final(self), beacons@),
    {
        self.verify(beacons)?;
        if self.phase != KernelTransactionPhase::Prepared {
            return Err(WireGuardKernelError::InvalidTransaction);
        }
        readback.verify_against(&self.plan, beacons)?;
        self.phase = KernelTransactionPhase::Committed;
        self.readback_configuration_digest = Some(readback.configuration_digest);
        let d = self.calculate_digest();
        self.transaction_digest = d;
        Ok(())
    }

    /// Marks exact cleanup after a failed fresh-stage transaction.
    #[verifier::spinoff_prover]
    #[verifier::rlimit(80)]
    pub fn record_rollback(&mut self, observed_absent: bool, beacons: &Vec<ProofBeacon>) -> (r: Result<
        (),
        WireGuardKernelError,
    >)
        ensures
            r is Ok <==> kernel_transaction_ok(*old(self), beacons@) && old(self).phase
                == KernelTransactionPhase::Prepared && observed_absent,
            r is Err ==> *final(self) == *old(self),
            kernel_transaction_ok(*old(self), beacons@) && r is Err ==> r == Err::<(), WireGuardKernelError>(
                WireGuardKernelError::InvalidTransaction,
            ),
            r is Ok ==> kernel_moved_to(*final(self), *old(self), KernelTransactionPhase::RolledBack, None)
                && kernel_transaction_ok(*final(self), beacons@),
    {
        self.verify(beacons)?;
        if self.phase != KernelTransactionPhase::Prepared || !observed_absent {
            return Err(WireGuardKernelError::InvalidTransaction);
        }
        self.phase = KernelTransactionPhase::RolledBack;
        let d = self.calculate_digest();
        self.transaction_digest = d;
        Ok(())
    }

    /// Chooses a deterministic restart action without mutating the kernel.
    pub fn recover(&self, observed: Option<&WireGuardKernelSnapshot>, beacons: &Vec<ProofBeacon>) -> (r: Result<
        KernelRecoveryAction,
        WireGuardKernelError,
    >)
        ensures
            r is Ok <==> kernel_transaction_ok(*self, beacons@),
            r matches Ok(a) ==> a == kernel_recovery_action(
                *self,
                match observed {
                    Some(s) => Some(*s),
                    None => None,
                },
            ),
    {
        self.verify(beacons)?;
        match (self.phase, observed) {
            (KernelTransactionPhase::Prepared, None) => Ok(KernelRecoveryAction::ApplyDesired),
            (KernelTransactionPhase::Prepared, Some(snapshot)) => {
                if snapshot.verify_against(&self.plan, beacons).is_ok() {
                    Ok(KernelRecoveryAction::CommitObservedDesired)
                } else {
                    Ok(KernelRecoveryAction::RefuseUnknownState)
                }
            },
            (KernelTransactionPhase::Committed, Some(snapshot)) => {
                let same = match &self.readback_configuration_digest {
                    Some(d) => bytes32_eq(&d.0, &snapshot.configuration_digest.0),
                    None => false,
                };
                if snapshot.verify_against(&self.plan, beacons).is_ok() && same {
                    Ok(KernelRecoveryAction::CommitObservedDesired)
                } else {
                    Ok(KernelRecoveryAction::RefuseUnknownState)
                }
            },
            (KernelTransactionPhase::RolledBack, None) => Ok(KernelRecoveryAction::RollbackComplete),
            _ => Ok(KernelRecoveryAction::RefuseUnknownState),
        }
    }
}


/// A readback that matches a plan is that plan's device: the same interface,
/// owner alias, key, port, fwmark and MTU, up, and peer for peer the same
/// public key, endpoint, keepalive and AllowedIPs, with one route per
/// planned prefix.
pub proof fn lemma_matching_readback_is_the_plan(s: WireGuardKernelSnapshot, plan: WireGuardKernelPlan)
    requires
        readback_matches(s, plan),
    ensures
        s.interface_name@ == plan.interface_name@,
        s.owner_alias@ == plan.owner_alias@,
        s.is_up,
        s.mtu == plan.mtu_envelope.interface_mtu,
        s.public_key.0@ == plan.local_public_key.0@,
        s.listen_port == plan.listen_port,
        s.fwmark == plan.fwmark,
        s.proof_addresses@ == plan.proof_addresses@,
        s.peers@.len() == plan.peers@.len(),
        forall|i: int|
            #![trigger s.peers@[i]]
            0 <= i < s.peers@.len() ==> s.peers@[i].public_key.0@ == plan.peers@[i].public_key.0@
                && s.peers@[i].endpoint == plan.peers@[i].endpoint
                && s.peers@[i].persistent_keepalive_seconds == plan.peers@[i].persistent_keepalive_seconds
                && s.peers@[i].allowed_ips@ == plan.peers@[i].allowed_ips@,
        s.routes@.len() == route_prefix_set(plan).len(),
        forall|i: int|
            #![trigger s.routes@[i]]
            0 <= i < s.routes@.len() ==> route_prefix_set(plan).contains(s.routes@[i].prefix)
                && s.routes@[i].table == plan.route_table && s.routes@[i].interface_index == s.interface_index,
{
    assert forall|i: int| #![trigger s.peers@[i]] 0 <= i < s.peers@.len() implies s.peers@[i].public_key.0@
        == plan.peers@[i].public_key.0@ && s.peers@[i].endpoint == plan.peers@[i].endpoint
        && s.peers@[i].persistent_keepalive_seconds == plan.peers@[i].persistent_keepalive_seconds
        && s.peers@[i].allowed_ips@ == plan.peers@[i].allowed_ips@ by {
        assert(peer_readback_matches(s.peers@[i], plan.peers@[i]));
    }
    assert forall|i: int| #![trigger s.routes@[i]] 0 <= i < s.routes@.len() implies route_prefix_set(plan).contains(
        s.routes@[i].prefix,
    ) && s.routes@[i].table == plan.route_table && s.routes@[i].interface_index == s.interface_index by {
        assert(route_readback_matches(s.routes@[i], s, plan));
    }
}

/// Recovery commits an observed device only when it is the transaction's
/// planned device: a sealed readback with the plan's interface, key, port,
/// fwmark and MTU and, peer for peer, the plan's keys, endpoints, keepalives
/// and AllowedIPs. A committed transaction also needs the readback's
/// configuration digest to be the one it recorded. Anything else observed
/// where a device should be is refused.
pub proof fn lemma_recovery_commits_only_the_plan(t: ProofCarryingKernelTransaction, s: WireGuardKernelSnapshot)
    ensures
        kernel_recovery_action(t, Some(s)) == KernelRecoveryAction::CommitObservedDesired ==> {
            &&& crate::kernel_snapshot::snapshot_ok(s)
            &&& s.interface_name@ == t.plan.interface_name@
            &&& s.public_key.0@ == t.plan.local_public_key.0@
            &&& s.listen_port == t.plan.listen_port
            &&& s.fwmark == t.plan.fwmark
            &&& s.mtu == t.plan.mtu_envelope.interface_mtu
            &&& s.peers@.len() == t.plan.peers@.len()
            &&& forall|i: int|
                #![trigger s.peers@[i]]
                0 <= i < s.peers@.len() ==> s.peers@[i].public_key.0@ == t.plan.peers@[i].public_key.0@
                    && s.peers@[i].endpoint == t.plan.peers@[i].endpoint
                    && s.peers@[i].persistent_keepalive_seconds == t.plan.peers@[i].persistent_keepalive_seconds
                    && s.peers@[i].allowed_ips@ == t.plan.peers@[i].allowed_ips@
        },
        kernel_recovery_action(t, Some(s)) == KernelRecoveryAction::CommitObservedDesired && t.phase
            == KernelTransactionPhase::Committed ==> opt_configuration(t.readback_configuration_digest) == Some(
            s.configuration_digest.0@,
        ),
        kernel_recovery_action(t, Some(s)) != KernelRecoveryAction::ApplyDesired,
        kernel_recovery_action(t, Some(s)) != KernelRecoveryAction::RollbackComplete,
{
    if kernel_recovery_action(t, Some(s)) == KernelRecoveryAction::CommitObservedDesired {
        lemma_matching_readback_is_the_plan(s, t.plan);
    }
}


/// Every restart state a transaction can be found in has its action: a
/// prepared transaction with no device applies the plan, and with the
/// planned device (sealed and matching the plan) commits it; a committed
/// transaction whose recorded readback is observed again reuses it; a rolled
/// back transaction with no device is complete. A committed transaction with
/// no device, or a rolled back one with a device, is refused.
pub proof fn lemma_kernel_recovery_total(t: ProofCarryingKernelTransaction, s: WireGuardKernelSnapshot)
    ensures
        t.phase == KernelTransactionPhase::Prepared ==> kernel_recovery_action(t, None)
            == KernelRecoveryAction::ApplyDesired,
        t.phase == KernelTransactionPhase::RolledBack ==> kernel_recovery_action(t, None)
            == KernelRecoveryAction::RollbackComplete,
        t.phase == KernelTransactionPhase::Committed ==> kernel_recovery_action(t, None)
            == KernelRecoveryAction::RefuseUnknownState,
        t.phase == KernelTransactionPhase::RolledBack ==> kernel_recovery_action(t, Some(s))
            == KernelRecoveryAction::RefuseUnknownState,
        t.phase == KernelTransactionPhase::Prepared && crate::kernel_snapshot::snapshot_ok(s) && readback_matches(
            s,
            t.plan,
        ) ==> kernel_recovery_action(t, Some(s)) == KernelRecoveryAction::CommitObservedDesired,
        t.phase == KernelTransactionPhase::Committed && crate::kernel_snapshot::snapshot_ok(s) && readback_matches(
            s,
            t.plan,
        ) && opt_configuration(t.readback_configuration_digest) == Some(s.configuration_digest.0@)
            ==> kernel_recovery_action(t, Some(s)) == KernelRecoveryAction::CommitObservedDesired,
{
}

} // verus!
