//! The self-contained record of one kernel readback, bound by a
//! configuration digest (what was configured) and an observation digest
//! (what was measured on top of it).

use vstd::prelude::*;
use crate::address::{IpAddr, IpPrefix, SocketAddr};
use crate::contract::{list_enc, push_list, Encode};
use crate::digest::{
    bool_bytes, push_bool, push_raw32, push_text, push_u16, push_u32, push_u64, push_u8, raw_bytes, sha256,
    sha256_spec, text_bytes, u16_bytes, u32_bytes, u64_bytes, u8_bytes,
};
use crate::keys::WireGuardPublicKey;
use crate::kernel_provider::{WireGuardKernelError, WireGuardRouteScope, WIREGUARD_KERNEL_SNAPSHOT_SCHEMA_VERSION};
use crate::netlink_readback::{WireGuardPeerReadback, WireGuardRouteReadback};
use crate::sorting::{sort_by_key, sorted_by_key, Keyed};

verus! {

pub const CONFIGURATION_DIGEST_DOMAIN: &'static str = "unf.wireguard-kernel-configuration.v3";
pub const OBSERVATION_DIGEST_DOMAIN: &'static str = "unf.wireguard-kernel-observation.v3";

#[derive(Clone, Copy, Debug)]
pub struct WireGuardKernelConfigurationDigest(pub [u8; 32]);

#[derive(Clone, Copy, Debug)]
pub struct WireGuardKernelObservationDigest(pub [u8; 32]);

/// What a readback observed, before it is put in canonical order and sealed.
pub struct WireGuardKernelSnapshotInput {
    pub interface_name: String,
    pub interface_index: u32,
    pub owner_alias: String,
    pub is_up: bool,
    pub mtu: u32,
    pub public_key: WireGuardPublicKey,
    pub listen_port: u16,
    pub fwmark: u32,
    pub proof_addresses: Vec<IpPrefix>,
    pub peers: Vec<WireGuardPeerReadback>,
    pub routes: Vec<WireGuardRouteReadback>,
}

/// One sealed kernel readback.
pub struct WireGuardKernelSnapshot {
    pub schema_version: u16,
    pub interface_name: String,
    pub interface_index: u32,
    pub owner_alias: String,
    pub is_up: bool,
    pub mtu: u32,
    pub public_key: WireGuardPublicKey,
    pub listen_port: u16,
    pub fwmark: u32,
    pub proof_addresses: Vec<IpPrefix>,
    pub peers: Vec<WireGuardPeerReadback>,
    pub routes: Vec<WireGuardRouteReadback>,
    pub configuration_digest: WireGuardKernelConfigurationDigest,
    pub observation_digest: WireGuardKernelObservationDigest,
}

/// Routes are ordered by prefix.
impl Keyed for WireGuardRouteReadback {
    open spec fn key_lt(self, other: Self) -> bool {
        crate::address::prefix_lt(self.prefix, other.prefix)
    }

    proof fn lemma_key_order(a: Self, b: Self, c: Self) {
    }

    fn key_less(&self, other: &Self) -> (r: bool) {
        crate::address::prefix_less(self.prefix, other.prefix)
    }
}

pub open spec fn scope_code(s: WireGuardRouteScope) -> u8 {
    match s {
        WireGuardRouteScope::Link => 0,
        WireGuardRouteScope::Universe => 1,
    }
}

impl Encode for WireGuardRouteReadback {
    open spec fn enc(self) -> Seq<u8> {
        self.prefix.enc() + u32_bytes(self.interface_index) + u32_bytes(self.table) + u8_bytes(self.protocol)
            + u8_bytes(scope_code(self.scope))
    }

    fn push_enc(&self, out: &mut Vec<u8>) {
        self.prefix.push_enc(out);
        push_u32(out, self.interface_index);
        push_u32(out, self.table);
        push_u8(out, self.protocol);
        let code: u8 = match self.scope {
            WireGuardRouteScope::Link => 0,
            WireGuardRouteScope::Universe => 1,
        };
        push_u8(out, code);
        assert(final(out)@ =~= old(out)@ + self.enc());
    }
}

/// The configured part of a peer: key, endpoint, keepalive and AllowedIPs.
pub open spec fn peer_config_enc(p: WireGuardPeerReadback) -> Seq<u8> {
    raw_bytes(p.public_key.0@) + p.endpoint.ip.enc() + u16_bytes(p.endpoint.port) + u16_bytes(
        p.persistent_keepalive_seconds,
    ) + list_enc(p.allowed_ips@)
}

/// The measured part of a peer: key, last handshake and counters.
pub open spec fn peer_observation_enc(p: WireGuardPeerReadback) -> Seq<u8> {
    raw_bytes(p.public_key.0@) + u64_bytes(p.last_handshake_unix_seconds as u64) + u64_bytes(p.received_bytes)
        + u64_bytes(p.transmitted_bytes)
}

pub open spec fn peers_config_enc(v: Seq<WireGuardPeerReadback>) -> Seq<u8>
    decreases v.len(),
{
    if v.len() == 0 {
        Seq::empty()
    } else {
        peers_config_enc(v.drop_last()) + peer_config_enc(v.last())
    }
}

pub open spec fn peers_observation_enc(v: Seq<WireGuardPeerReadback>) -> Seq<u8>
    decreases v.len(),
{
    if v.len() == 0 {
        Seq::empty()
    } else {
        peers_observation_enc(v.drop_last()) + peer_observation_enc(v.last())
    }
}

/// Everything the configuration digest covers.
pub open spec fn configuration_material(s: WireGuardKernelSnapshot) -> Seq<u8> {
    u16_bytes(s.schema_version) + text_bytes(s.interface_name@) + u32_bytes(s.interface_index) + text_bytes(
        s.owner_alias@,
    ) + bool_bytes(s.is_up) + u32_bytes(s.mtu) + raw_bytes(s.public_key.0@) + u16_bytes(s.listen_port) + u32_bytes(
        s.fwmark,
    ) + list_enc(s.proof_addresses@) + u64_bytes(s.peers@.len() as u64) + peers_config_enc(s.peers@) + list_enc(
        s.routes@,
    )
}

pub open spec fn configuration_digest_spec(s: WireGuardKernelSnapshot) -> Seq<u8> {
    sha256_spec(text_bytes(CONFIGURATION_DIGEST_DOMAIN@) + configuration_material(s))
}

/// The observation digest covers the configuration digest and each peer's
/// measurements.
pub open spec fn observation_digest_spec(s: WireGuardKernelSnapshot) -> Seq<u8> {
    sha256_spec(
        text_bytes(OBSERVATION_DIGEST_DOMAIN@) + raw_bytes(s.configuration_digest.0@) + u64_bytes(
            s.peers@.len() as u64,
        ) + peers_observation_enc(s.peers@),
    )
}

fn push_peer_config(out: &mut Vec<u8>, p: &WireGuardPeerReadback)
    ensures
        final(out)@ == old(out)@ + peer_config_enc(*p),
{
    push_raw32(out, &p.public_key.0);
    p.endpoint.ip.push_enc(out);
    push_u16(out, p.endpoint.port);
    push_u16(out, p.persistent_keepalive_seconds);
    push_list(out, &p.allowed_ips);
    assert(final(out)@ =~= old(out)@ + peer_config_enc(*p));
}

fn push_peer_observation(out: &mut Vec<u8>, p: &WireGuardPeerReadback)
    ensures
        final(out)@ == old(out)@ + peer_observation_enc(*p),
{
    push_raw32(out, &p.public_key.0);
    push_u64(out, p.last_handshake_unix_seconds as u64);
    push_u64(out, p.received_bytes);
    push_u64(out, p.transmitted_bytes);
    assert(final(out)@ =~= old(out)@ + peer_observation_enc(*p));
}

fn push_peers_config(out: &mut Vec<u8>, v: &Vec<WireGuardPeerReadback>)
    ensures
        final(out)@ == old(out)@ + peers_config_enc(v@),
{
    let ghost start = out@;
    let mut i: usize = 0;
    while i < v.len()
        invariant
            i <= v@.len(),
            out@ == start + peers_config_enc(v@.take(i as int)),
        decreases v@.len() - i,
    {
        push_peer_config(out, &v[i]);
        proof {
            assert(v@.take(i + 1).drop_last() =~= v@.take(i as int));
            assert(out@ =~= start + peers_config_enc(v@.take(i + 1)));
        }
        i = i + 1;
    }
    assert(v@.take(i as int) =~= v@);
}

fn push_peers_observation(out: &mut Vec<u8>, v: &Vec<WireGuardPeerReadback>)
    ensures
        final(out)@ == old(out)@ + peers_observation_enc(v@),
{
    let ghost start = out@;
    let mut i: usize = 0;
    while i < v.len()
        invariant
            i <= v@.len(),
            out@ == start + peers_observation_enc(v@.take(i as int)),
        decreases v@.len() - i,
    {
        push_peer_observation(out, &v[i]);
        proof {
            assert(v@.take(i + 1).drop_last() =~= v@.take(i as int));
            assert(out@ =~= start + peers_observation_enc(v@.take(i + 1)));
        }
        i = i + 1;
    }
    assert(v@.take(i as int) =~= v@);
}

impl WireGuardKernelSnapshot {
    /// The digest of the configured state.
    pub fn calculate_configuration_digest(&self) -> (d: WireGuardKernelConfigurationDigest)
        ensures
            d.0@ == configuration_digest_spec(*self),
    {
        let mut m: Vec<u8> = Vec::new();
        push_text(&mut m, CONFIGURATION_DIGEST_DOMAIN);
        push_u16(&mut m, self.schema_version);
        push_text(&mut m, self.interface_name.as_str());
        push_u32(&mut m, self.interface_index);
        push_text(&mut m, self.owner_alias.as_str());
        push_bool(&mut m, self.is_up);
        push_u32(&mut m, self.mtu);
        push_raw32(&mut m, &self.public_key.0);
        push_u16(&mut m, self.listen_port);
        push_u32(&mut m, self.fwmark);
        push_list(&mut m, &self.proof_addresses);
        push_u64(&mut m, self.peers.len() as u64);
        push_peers_config(&mut m, &self.peers);
        push_list(&mut m, &self.routes);
        assert(m@ =~= text_bytes(CONFIGURATION_DIGEST_DOMAIN@) + configuration_material(*self));
        WireGuardKernelConfigurationDigest(sha256(&m))
    }

    /// The digest of the configuration digest and the measurements.
    pub fn calculate_observation_digest(&self) -> (d: WireGuardKernelObservationDigest)
        ensures
            d.0@ == observation_digest_spec(*self),
    {
        let mut m: Vec<u8> = Vec::new();
        push_text(&mut m, OBSERVATION_DIGEST_DOMAIN);
        push_raw32(&mut m, &self.configuration_digest.0);
        push_u64(&mut m, self.peers.len() as u64);
        push_peers_observation(&mut m, &self.peers);
        assert(m@ =~= text_bytes(OBSERVATION_DIGEST_DOMAIN@) + raw_bytes(self.configuration_digest.0@) + u64_bytes(
            self.peers@.len() as u64,
        ) + peers_observation_enc(self.peers@));
        WireGuardKernelObservationDigest(sha256(&m))
    }
}

/// `a` is `b` with its AllowedIPs in ascending order.
pub open spec fn peer_sorted_copy(a: WireGuardPeerReadback, b: WireGuardPeerReadback) -> bool {
    &&& a.public_key == b.public_key
    &&& a.endpoint == b.endpoint
    &&& a.persistent_keepalive_seconds == b.persistent_keepalive_seconds
    &&& a.last_handshake_unix_seconds == b.last_handshake_unix_seconds
    &&& a.received_bytes == b.received_bytes
    &&& a.transmitted_bytes == b.transmitted_bytes
    &&& a.allowed_ips@.to_multiset() == b.allowed_ips@.to_multiset()
    &&& sorted_by_key(a.allowed_ips@)
}

/// `out` holds, in some order, the peers of `v`, each with its AllowedIPs in
/// ascending order.
pub open spec fn peers_sorted_from(out: Seq<WireGuardPeerReadback>, v: Seq<WireGuardPeerReadback>) -> bool {
    exists|q: Seq<WireGuardPeerReadback>|
        #![trigger q.to_multiset()]
        q.len() == v.len() && (forall|k: int| 0 <= k < q.len() ==> peer_sorted_copy(#[trigger] q[k], v[k]))
            && out.to_multiset() == q.to_multiset()
}

impl WireGuardKernelSnapshot {
    /// Seals a readback: proof addresses, peers (by public key), each peer's
    /// AllowedIPs and the routes (by prefix) in canonical order, then both
    /// digests.
    pub fn issue(input: WireGuardKernelSnapshotInput) -> (r: Self)
        ensures
            r.schema_version == WIREGUARD_KERNEL_SNAPSHOT_SCHEMA_VERSION,
            r.interface_name == input.interface_name,
            r.interface_index == input.interface_index,
            r.owner_alias == input.owner_alias,
            r.is_up == input.is_up,
            r.mtu == input.mtu,
            r.public_key == input.public_key,
            r.listen_port == input.listen_port,
            r.fwmark == input.fwmark,
            r.proof_addresses@.to_multiset() == input.proof_addresses@.to_multiset(),
            sorted_by_key(r.proof_addresses@),
            peers_sorted_from(r.peers@, input.peers@),
            sorted_by_key(r.peers@),
            r.routes@.to_multiset() == input.routes@.to_multiset(),
            sorted_by_key(r.routes@),
            r.configuration_digest.0@ == configuration_digest_spec(r),
            r.observation_digest.0@ == observation_digest_spec(r),
    {
        let WireGuardKernelSnapshotInput {
            interface_name,
            interface_index,
            owner_alias,
            is_up,
            mtu,
            public_key,
            listen_port,
            fwmark,
            proof_addresses,
            peers,
            routes,
        } = input;
        let proof_addresses = sort_by_key(proof_addresses);
        let ghost input_peers = peers@;
        let mut sorted_peers: Vec<WireGuardPeerReadback> = Vec::new();
        let mut rest = peers;
        let mut k: usize = 0;
        let n = rest.len();
        while rest.len() > 0
            invariant
                n == input_peers.len(),
                k + rest@.len() == n,
                rest@ == input_peers.skip(k as int),
                sorted_peers@.len() == k,
                forall|j: int| 0 <= j < k ==> peer_sorted_copy(#[trigger] sorted_peers@[j], input_peers[j]),
            decreases rest@.len(),
        {
            let ghost before = rest@;
            let p = rest.remove(0);
            proof {
                assert(p == before[0]);
                assert(p == input_peers[k as int]);
                assert(rest@ =~= input_peers.skip(k + 1));
            }
            let WireGuardPeerReadback {
                public_key,
                endpoint,
                persistent_keepalive_seconds,
                allowed_ips,
                last_handshake_unix_seconds,
                received_bytes,
                transmitted_bytes,
            } = p;
            sorted_peers.push(
                WireGuardPeerReadback {
                    public_key,
                    endpoint,
                    persistent_keepalive_seconds,
                    allowed_ips: sort_by_key(allowed_ips),
                    last_handshake_unix_seconds,
                    received_bytes,
                    transmitted_bytes,
                },
            );
            k = k + 1;
        }
        let ghost unsorted = sorted_peers@;
        let peers = sort_by_key(sorted_peers);
        let routes = sort_by_key(routes);
        let mut snapshot = WireGuardKernelSnapshot {
            schema_version: WIREGUARD_KERNEL_SNAPSHOT_SCHEMA_VERSION,
            interface_name,
            interface_index,
            owner_alias,
            is_up,
            mtu,
            public_key,
            listen_port,
            fwmark,
            proof_addresses,
            peers,
            routes,
            configuration_digest: WireGuardKernelConfigurationDigest([0u8; 32]),
            observation_digest: WireGuardKernelObservationDigest([0u8; 32]),
        };
        let c = snapshot.calculate_configuration_digest();
        snapshot.configuration_digest = c;
        let o = snapshot.calculate_observation_digest();
        snapshot.observation_digest = o;
        proof {
            assert(unsorted.len() == input_peers.len() && (forall|j: int| 0 <= j < unsorted.len() ==> peer_sorted_copy(#[trigger] unsorted[j], input_peers[j]))
                && snapshot.peers@.to_multiset() == unsorted.to_multiset());
        }
        snapshot
    }
}

pub const MAX_WIREGUARD_OWNER_ALIAS_BYTES: usize = 255;

/// The bytes that every ownership alias starts with: `unf:encryption:v2:`.
pub open spec fn owner_alias_prefix() -> Seq<u8> {
    seq![
        0x75u8, 0x6eu8, 0x66u8, 0x3au8, 0x65u8, 0x6eu8, 0x63u8, 0x72u8, 0x79u8, 0x70u8, 0x74u8, 0x69u8, 0x6fu8,
        0x6eu8, 0x3au8, 0x76u8, 0x32u8, 0x3au8,
    ]
}

/// An ownership alias: at most the alias bound, under the versioned prefix.
pub open spec fn alias_ok(bytes: Seq<u8>) -> bool {
    &&& 18 <= bytes.len() <= MAX_WIREGUARD_OWNER_ALIAS_BYTES
    &&& bytes.take(18) == owner_alias_prefix()
}

/// A host prefix: the full length of its family.
pub open spec fn host_prefix(p: IpPrefix) -> bool {
    match p.address {
        IpAddr::V4(_) => p.prefix_len == 32,
        IpAddr::V6(_) => p.prefix_len == 128,
    }
}

/// Proof addresses: present, bounded, ascending, canonical host prefixes.
pub open spec fn proof_addresses_ok(v: Seq<IpPrefix>) -> bool {
    &&& 0 < v.len() <= crate::model::MAX_ENCRYPTION_PREFIXES_PER_NODE
    &&& crate::sorting::strictly_sorted_by_key(v)
    &&& forall|i: int| 0 <= i < v.len() ==> crate::address::prefix_canonical(#[trigger] v[i]) && host_prefix(v[i])
}

/// One peer on its own: a nonzero key, a usable endpoint, a bounded
/// keepalive, and ascending canonical AllowedIPs.
pub open spec fn peer_shape_ok(p: WireGuardPeerReadback) -> bool {
    &&& !crate::digest::all_zero(p.public_key.0@)
    &&& crate::kernel_provider::endpoint_ok(p.endpoint)
    &&& p.persistent_keepalive_seconds <= 600
    &&& p.allowed_ips@.len() > 0
    &&& crate::sorting::strictly_sorted_by_key(p.allowed_ips@)
    &&& forall|i: int| 0 <= i < p.allowed_ips@.len() ==> crate::address::prefix_canonical(#[trigger] p.allowed_ips@[i])
}

/// Every peer's AllowedIPs, peer by peer.
pub open spec fn all_allowed(v: Seq<WireGuardPeerReadback>) -> Seq<IpPrefix>
    decreases v.len(),
{
    if v.len() == 0 {
        Seq::empty()
    } else {
        all_allowed(v.drop_last()) + v.last().allowed_ips@
    }
}

/// An owned route: canonical, on this interface, in a table, with the owned
/// protocol and scope, to one of the AllowedIPs.
pub open spec fn route_ok(r: WireGuardRouteReadback, index: u32, allowed: Seq<IpPrefix>) -> bool {
    &&& crate::address::prefix_canonical(r.prefix)
    &&& r.interface_index == index
    &&& r.table != 0
    &&& r.protocol == crate::kernel_provider::UNF_WIREGUARD_ROUTE_PROTOCOL
    &&& r.scope == crate::netlink_readback::scope_for(r.prefix)
    &&& allowed.contains(r.prefix)
}

/// The complete integrity condition of a sealed readback.
pub open spec fn snapshot_ok(s: WireGuardKernelSnapshot) -> bool {
    &&& s.schema_version == WIREGUARD_KERNEL_SNAPSHOT_SCHEMA_VERSION
    &&& crate::kernel_provider::kernel_interface_name_ok(vstd::utf8::encode_utf8(s.interface_name@))
    &&& s.interface_index != 0
    &&& alias_ok(vstd::utf8::encode_utf8(s.owner_alias@))
    &&& proof_addresses_ok(s.proof_addresses@)
    &&& s.is_up
    &&& crate::kernel_provider::MIN_WIREGUARD_MTU <= s.mtu <= crate::kernel_provider::MAX_WIREGUARD_MTU
    &&& !crate::digest::all_zero(s.public_key.0@)
    &&& s.listen_port != 0
    &&& s.fwmark != 0
    &&& 0 < s.peers@.len() <= crate::kernel_provider::MAX_WIREGUARD_PEERS
    &&& 0 < s.routes@.len() <= crate::kernel_provider::MAX_WIREGUARD_ALLOWED_IPS
    &&& crate::sorting::strictly_sorted_by_key(s.peers@)
    &&& crate::sorting::strictly_sorted_by_key(s.routes@)
    &&& s.configuration_digest.0@ == configuration_digest_spec(s)
    &&& s.observation_digest.0@ == observation_digest_spec(s)
    &&& forall|k: int| 0 <= k < s.peers@.len() ==> peer_shape_ok(#[trigger] s.peers@[k])
    &&& all_allowed(s.peers@).no_duplicates()
    &&& forall|k: int| 0 <= k < s.routes@.len() ==> route_ok(#[trigger] s.routes@[k], s.interface_index, all_allowed(s.peers@))
}

fn alias_checked(alias: &str) -> (r: bool)
    ensures
        r == alias_ok(vstd::utf8::encode_utf8(alias@)),
{
    let bytes = alias.as_bytes();
    if bytes.len() < 18 || bytes.len() > MAX_WIREGUARD_OWNER_ALIAS_BYTES {
        return false;
    }
    let expected: [u8; 18] = [
        0x75u8, 0x6eu8, 0x66u8, 0x3au8, 0x65u8, 0x6eu8, 0x63u8, 0x72u8, 0x79u8, 0x70u8, 0x74u8, 0x69u8, 0x6fu8,
        0x6eu8, 0x3au8, 0x76u8, 0x32u8, 0x3au8,
    ];
    assert(expected@ =~= owner_alias_prefix());
    let mut i: usize = 0;
    while i < 18
        invariant
            i <= 18,
            18 <= bytes@.len(),
            bytes@ == vstd::utf8::encode_utf8(alias@),
            expected@ == owner_alias_prefix(),
            forall|j: int| 0 <= j < i ==> bytes@[j] == expected@[j],
        decreases 18 - i,
    {
        if bytes[i] != expected[i] {
            assert(bytes@.take(18)[i as int] != owner_alias_prefix()[i as int]);
            return false;
        }
        i = i + 1;
    }
    assert(bytes@.take(18) =~= owner_alias_prefix());
    true
}

pub(crate) fn strictly_ascending<T: Keyed>(v: &Vec<T>) -> (r: bool)
    ensures
        r == crate::sorting::strictly_sorted_by_key(v@),
{
    let mut i: usize = 1;
    if v.len() == 0 {
        return true;
    }
    while i < v.len()
        invariant
            1 <= i <= v@.len(),
            crate::sorting::strictly_sorted_by_key(v@.take(i as int)),
        decreases v@.len() - i,
    {
        if !v[i - 1].key_less(&v[i]) {
            return false;
        }
        proof {
            assert forall|a: int, b: int| 0 <= a < b < i + 1 implies (#[trigger] v@.take(i + 1)[a]).key_lt(#[trigger] v@.take(i + 1)[b]) by {
                if b == i && a < i - 1 {
                    assert(v@.take(i as int)[a] == v@[a]);
                    assert(v@.take(i as int)[i - 1] == v@[i - 1]);
                    T::lemma_key_order(v@[a], v@[i - 1], v@[b]);
                } else if b < i {
                    assert(v@.take(i as int)[a] == v@[a] && v@.take(i as int)[b] == v@[b]);
                }
            }
        }
        i = i + 1;
    }
    assert(v@.take(i as int) =~= v@);
    true
}

/// Whether the proof addresses are well formed.
pub(crate) fn proof_addresses_checked(v: &Vec<IpPrefix>) -> (r: bool)
    ensures
        r == proof_addresses_ok(v@),
{
    if v.len() == 0 || v.len() > crate::model::MAX_ENCRYPTION_PREFIXES_PER_NODE || !strictly_ascending(v) {
        return false;
    }
    let mut i: usize = 0;
    while i < v.len()
        invariant
            i <= v@.len(),
            forall|j: int| 0 <= j < i ==> crate::address::prefix_canonical(#[trigger] v@[j]) && host_prefix(v@[j]),
        decreases v@.len() - i,
    {
        let p = v[i];
        let host = match p.address {
            IpAddr::V4(_) => p.prefix_len == 32,
            IpAddr::V6(_) => p.prefix_len == 128,
        };
        if !p.is_canonical() || !host {
            return false;
        }
        i = i + 1;
    }
    true
}

/// Whether one peer is well formed on its own.
fn peer_shape_checked(p: &WireGuardPeerReadback) -> (r: bool)
    ensures
        r == peer_shape_ok(*p),
{
    if crate::digest::bytes32_is_zero(&p.public_key.0) || !crate::kernel_provider::valid_endpoint(p.endpoint)
        || p.persistent_keepalive_seconds > 600 || p.allowed_ips.len() == 0 || !strictly_ascending(&p.allowed_ips) {
        return false;
    }
    let mut i: usize = 0;
    while i < p.allowed_ips.len()
        invariant
            i <= p.allowed_ips@.len(),
            forall|j: int| 0 <= j < i ==> crate::address::prefix_canonical(#[trigger] p.allowed_ips@[j]),
        decreases p.allowed_ips@.len() - i,
    {
        if !p.allowed_ips[i].is_canonical() {
            return false;
        }
        i = i + 1;
    }
    true
}

/// Records the AllowedIPs of one more peer, refusing any already recorded.
fn record_allowed(seen: &mut Vec<IpPrefix>, v: &Vec<IpPrefix>) -> (r: bool)
    requires
        old(seen)@.no_duplicates(),
    ensures
        r == (old(seen)@ + v@).no_duplicates(),
        r ==> final(seen)@ == old(seen)@ + v@,
{
    let ghost start = seen@;
    let mut j: usize = 0;
    while j < v.len()
        invariant
            j <= v@.len(),
            start == old(seen)@,
            seen@ == start + v@.take(j as int),
            seen@.no_duplicates(),
        decreases v@.len() - j,
    {
        let a = v[j];
        if crate::netlink_readback::prefix_listed(seen, a) {
            proof {
                let k = choose|k: int| 0 <= k < seen@.len() && seen@[k] == a;
                let all = start + v@;
                assert(seen@.len() == start.len() + j);
                assert(all[k] == seen@[k]);
                assert(all[start.len() + j] == a);
                assert(k != start.len() + j);
                assert(!all.no_duplicates());
            }
            return false;
        }
        let ghost before = seen@;
        seen.push(a);
        proof {
            assert(seen@ =~= start + v@.take(j + 1));
            assert forall|x: int, y: int| 0 <= x < seen@.len() && 0 <= y < seen@.len() && x != y implies seen@[x] != seen@[y] by {
                if x < before.len() && y < before.len() {
                    assert(seen@[x] == before[x] && seen@[y] == before[y]);
                } else if x < before.len() {
                    assert(seen@[x] == before[x]);
                    assert(before.contains(before[x]));
                } else if y < before.len() {
                    assert(seen@[y] == before[y]);
                    assert(before.contains(before[y]));
                }
            }
        }
        j = j + 1;
    }
    assert(v@.take(j as int) =~= v@);
    true
}

proof fn lemma_no_duplicates_prefix(a: Seq<IpPrefix>, b: Seq<IpPrefix>, c: Seq<IpPrefix>)
    requires
        !(a + b).no_duplicates(),
    ensures
        !(a + b + c).no_duplicates(),
{
    let (x, y) = choose|x: int, y: int| 0 <= x < (a + b).len() && 0 <= y < (a + b).len() && x != y && (a + b)[x] == (a + b)[y];
    assert((a + b + c)[x] == (a + b)[x]);
    assert((a + b + c)[y] == (a + b)[y]);
}

proof fn lemma_all_allowed_grow(v: Seq<WireGuardPeerReadback>, k: int)
    requires
        0 <= k <= v.len(),
        !all_allowed(v.take(k)).no_duplicates(),
    ensures
        !all_allowed(v).no_duplicates(),
    decreases v.len() - k,
{
    if k < v.len() {
        assert(v.take(k + 1).drop_last() =~= v.take(k));
        lemma_no_duplicates_prefix(all_allowed(v.take(k)), Seq::empty(), v[k].allowed_ips@);
        assert(all_allowed(v.take(k)) + Seq::<IpPrefix>::empty() =~= all_allowed(v.take(k)));
        assert(all_allowed(v.take(k + 1)) == all_allowed(v.take(k)) + v[k].allowed_ips@);
        lemma_all_allowed_grow(v, k + 1);
    } else {
        assert(v.take(k) =~= v);
    }
}

impl WireGuardKernelSnapshot {
    /// Verifies the canonical, self-contained readback without trusting its
    /// stored digests.
    #[verifier::rlimit(40)]
    pub fn verify_integrity(&self) -> (r: Result<(), WireGuardKernelError>)
        ensures
            (r is Ok) == snapshot_ok(*self),
            r is Err ==> r->Err_0 is ReadbackMismatch,
    {
        let configuration = self.calculate_configuration_digest();
        let observation = self.calculate_observation_digest();
        if self.schema_version != WIREGUARD_KERNEL_SNAPSHOT_SCHEMA_VERSION || !crate::kernel_provider::valid_interface_name(
            self.interface_name.as_str(),
        ) || self.interface_index == 0 || !alias_checked(self.owner_alias.as_str()) || !proof_addresses_checked(
            &self.proof_addresses,
        ) || !self.is_up || self.mtu < crate::kernel_provider::MIN_WIREGUARD_MTU || self.mtu
            > crate::kernel_provider::MAX_WIREGUARD_MTU || crate::digest::bytes32_is_zero(&self.public_key.0)
            || self.listen_port == 0 || self.fwmark == 0 || self.peers.len() == 0 || self.peers.len()
            > crate::kernel_provider::MAX_WIREGUARD_PEERS || self.routes.len() == 0 || self.routes.len()
            > crate::kernel_provider::MAX_WIREGUARD_ALLOWED_IPS || !strictly_ascending(&self.peers)
            || !strictly_ascending(&self.routes) || !crate::digest::bytes32_eq(&self.configuration_digest.0, &configuration.0)
            || !crate::digest::bytes32_eq(&self.observation_digest.0, &observation.0) {
            return Err(WireGuardKernelError::ReadbackMismatch);
        }
        let mut seen: Vec<IpPrefix> = Vec::new();
        let mut i: usize = 0;
        assert(self.peers@.take(0) =~= Seq::<WireGuardPeerReadback>::empty());
        while i < self.peers.len()
            invariant
                i <= self.peers@.len(),
                seen@ == all_allowed(self.peers@.take(i as int)),
                seen@.no_duplicates(),
                forall|k: int| 0 <= k < i ==> peer_shape_ok(#[trigger] self.peers@[k]),
            decreases self.peers@.len() - i,
        {
            proof {
                assert(self.peers@.take(i + 1).drop_last() =~= self.peers@.take(i as int));
                assert(self.peers@.take(i + 1).last() == self.peers@[i as int]);
            }
            let p = &self.peers[i];
            if !peer_shape_checked(p) {
                return Err(WireGuardKernelError::ReadbackMismatch);
            }
            if !record_allowed(&mut seen, &p.allowed_ips) {
                proof {
                    lemma_all_allowed_grow(self.peers@, i + 1);
                }
                return Err(WireGuardKernelError::ReadbackMismatch);
            }
            i = i + 1;
        }
        assert(self.peers@.take(i as int) =~= self.peers@);
        let mut k: usize = 0;
        while k < self.routes.len()
            invariant
                k <= self.routes@.len(),
                seen@ == all_allowed(self.peers@),
                forall|j: int| 0 <= j < k ==> route_ok(#[trigger] self.routes@[j], self.interface_index, seen@),
            decreases self.routes@.len() - k,
        {
            let rt = self.routes[k];
            let scope = crate::kernel_provider::WireGuardRouteScope::for_prefix(rt.prefix);
            if !rt.prefix.is_canonical() || rt.interface_index != self.interface_index || rt.table == 0 || rt.protocol
                != crate::kernel_provider::UNF_WIREGUARD_ROUTE_PROTOCOL || rt.scope != scope
                || !crate::netlink_readback::prefix_listed(&seen, rt.prefix) {
                return Err(WireGuardKernelError::ReadbackMismatch);
            }
            k = k + 1;
        }
        Ok(())
    }
}

} // verus!
