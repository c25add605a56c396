//! Decoding of WireGuard and routing readback. The attributes that the kernel
//! reports are handed over as plain values, in the order the kernel sent
//! them; each decoder states exactly which sequences it accepts and what it
//! makes of them.

use vstd::prelude::*;
use crate::address::{prefix_canonical, IpAddr, IpPrefix, SocketAddr};
use crate::kernel_provider::WireGuardKernelError;
use crate::digest::bytes_lt;
use crate::kernel_provider::WireGuardRouteScope;
use crate::sorting::Keyed;
use vstd::string::StringExecFns;

verus! {

/// The Linux WireGuard provider. Its netlink requests are made outside the
/// library; every reply is decoded here.
#[derive(Clone, Copy, Debug)]
pub struct LinuxWireGuardProvider;

/// The address family that an AllowedIP reports.
#[derive(Clone, Copy, Debug, PartialEq, Eq, Structural)]
pub enum AllowedIpFamily {
    Ipv4,
    Ipv6,
    Other(u16),
}

/// One attribute of a reported AllowedIP.
#[derive(Clone, Copy, Debug)]
pub enum AllowedIpAttribute {
    Family(AllowedIpFamily),
    Address(IpAddr),
    Cidr(u8),
    Flags,
    Other,
}

/// The family that an address belongs to.
pub open spec fn family_of(a: IpAddr) -> AllowedIpFamily {
    match a {
        IpAddr::V4(_) => AllowedIpFamily::Ipv4,
        IpAddr::V6(_) => AllowedIpFamily::Ipv6,
    }
}

/// Fills a slot that may hold one value: `None` where it already holds
/// another.
pub open spec fn fill_once<T>(slot: Option<T>, v: T) -> Option<Option<T>> {
    match slot {
        Some(prior) => if prior == v {
            Some(Some(v))
        } else {
            None
        },
        None => Some(Some(v)),
    }
}

/// The family, address and prefix length that an AllowedIP's attributes
/// report, or `None` where they repeat one with another value or carry
/// flags or unknown attributes.
pub open spec fn allowed_ip_slots(attrs: Seq<AllowedIpAttribute>) -> Option<(Option<AllowedIpFamily>, Option<IpAddr>, Option<u8>)>
    decreases attrs.len(),
{
    if attrs.len() == 0 {
        Some((None, None, None))
    } else {
        match allowed_ip_slots(attrs.drop_last()) {
            None => None,
            Some((f, a, c)) => match attrs.last() {
                AllowedIpAttribute::Family(v) => match fill_once(f, v) {
                    Some(f2) => Some((f2, a, c)),
                    None => None,
                },
                AllowedIpAttribute::Address(v) => match fill_once(a, v) {
                    Some(a2) => Some((f, a2, c)),
                    None => None,
                },
                AllowedIpAttribute::Cidr(v) => match fill_once(c, v) {
                    Some(c2) => Some((f, a, c2)),
                    None => None,
                },
                _ => None,
            },
        }
    }
}

/// The prefix that an AllowedIP reports: an address, its own family, a
/// prefix length, and canonical.
pub open spec fn allowed_ip_spec(attrs: Seq<AllowedIpAttribute>) -> Option<IpPrefix> {
    match allowed_ip_slots(attrs) {
        Some((Some(f), Some(a), Some(c))) => if f == family_of(a) && prefix_canonical(IpPrefix { address: a, prefix_len: c }) {
            Some(IpPrefix { address: a, prefix_len: c })
        } else {
            None
        },
        _ => None,
    }
}

/// Decodes one reported AllowedIP.
pub fn parse_allowed_ip(attrs: &Vec<AllowedIpAttribute>) -> (r: Result<IpPrefix, WireGuardKernelError>)
    ensures
        match allowed_ip_spec(attrs@) {
            Some(p) => r matches Ok(q) && q == p,
            None => r matches Err(e) && e is ReadbackMismatch,
        },
{
    let mut family: Option<AllowedIpFamily> = None;
    let mut address: Option<IpAddr> = None;
    let mut prefix_len: Option<u8> = None;
    let mut i: usize = 0;
    while i < attrs.len()
        invariant
            i <= attrs@.len(),
            allowed_ip_slots(attrs@.take(i as int)) == Some((family, address, prefix_len)),
        decreases attrs@.len() - i,
    {
        proof {
            assert(attrs@.take(i + 1).drop_last() =~= attrs@.take(i as int));
            assert(attrs@.take(i + 1).last() == attrs@[i as int]);
        }
        match attrs[i] {
            AllowedIpAttribute::Family(v) => {
                if let Some(prior) = family {
                    if prior != v {
                        proof {
                            lemma_slots_stop(attrs@, i as int + 1);
                        }
                        return Err(WireGuardKernelError::ReadbackMismatch);
                    }
                }
                family = Some(v);
            },
            AllowedIpAttribute::Address(v) => {
                if let Some(prior) = address {
                    if prior != v {
                        proof {
                            lemma_slots_stop(attrs@, i as int + 1);
                        }
                        return Err(WireGuardKernelError::ReadbackMismatch);
                    }
                }
                address = Some(v);
            },
            AllowedIpAttribute::Cidr(v) => {
                if let Some(prior) = prefix_len {
                    if prior != v {
                        proof {
                            lemma_slots_stop(attrs@, i as int + 1);
                        }
                        return Err(WireGuardKernelError::ReadbackMismatch);
                    }
                }
                prefix_len = Some(v);
            },
            _ => {
                proof {
                    lemma_slots_stop(attrs@, i as int + 1);
                }
                return Err(WireGuardKernelError::ReadbackMismatch);
            },
        }
        i = i + 1;
    }
    assert(attrs@.take(i as int) =~= attrs@);
    let a = match address {
        Some(a) => a,
        None => {
            return Err(WireGuardKernelError::ReadbackMismatch);
        },
    };
    let expected = match a {
        IpAddr::V4(_) => AllowedIpFamily::Ipv4,
        IpAddr::V6(_) => AllowedIpFamily::Ipv6,
    };
    let same_family = match family {
        Some(f) => f == expected,
        None => false,
    };
    if !same_family {
        return Err(WireGuardKernelError::ReadbackMismatch);
    }
    let c = match prefix_len {
        Some(c) => c,
        None => {
            return Err(WireGuardKernelError::ReadbackMismatch);
        },
    };
    let prefix = IpPrefix { address: a, prefix_len: c };
    if !prefix.is_canonical() {
        return Err(WireGuardKernelError::ReadbackMismatch);
    }
    Ok(prefix)
}

/// Once the attributes are rejected, no longer sequence is accepted.
proof fn lemma_slots_stop(attrs: Seq<AllowedIpAttribute>, k: int)
    requires
        0 < k <= attrs.len(),
        allowed_ip_slots(attrs.take(k)) is None,
    ensures
        allowed_ip_slots(attrs) is None,
    decreases attrs.len() - k,
{
    if k < attrs.len() {
        assert(attrs.take(k + 1).drop_last() =~= attrs.take(k));
        lemma_slots_stop(attrs, k + 1);
    } else {
        assert(attrs.take(k) =~= attrs);
    }
}

/// One attribute of a reported WireGuard peer.
#[derive(Clone, Debug)]
pub enum PeerAttribute {
    PublicKey([u8; 32]),
    PresharedKey([u8; 32]),
    Endpoint(SocketAddr),
    PersistentKeepalive(u16),
    LastHandshake(i64),
    RxBytes(u64),
    TxBytes(u64),
    AllowedIps(Vec<Vec<AllowedIpAttribute>>),
    ProtocolVersion(u32),
    Flags,
    Other,
}

/// What a peer's attributes report so far.
pub struct PeerSlots {
    pub public_key: Option<Seq<u8>>,
    pub endpoint: Option<SocketAddr>,
    pub keepalive: u16,
    pub handshake: i64,
    pub received: u64,
    pub transmitted: u64,
    pub allowed_ips: Option<Seq<IpPrefix>>,
}

/// Why a peer's attributes are rejected.
pub enum PeerFailure {
    Mismatch,
    PresharedKey,
}

pub const PRESHARED_KEY_MESSAGE: &'static str = "unexpected preshared key";

/// The prefixes that a list of AllowedIPs reports, or `None` where one of
/// them is rejected.
pub open spec fn allowed_ips_spec(v: Seq<Vec<AllowedIpAttribute>>) -> Option<Seq<IpPrefix>>
    decreases v.len(),
{
    if v.len() == 0 {
        Some(Seq::empty())
    } else {
        match (allowed_ips_spec(v.drop_last()), allowed_ip_spec(v.last()@)) {
            (Some(ps), Some(p)) => Some(ps.push(p)),
            _ => None,
        }
    }
}

pub open spec fn empty_peer_slots() -> PeerSlots {
    PeerSlots {
        public_key: None,
        endpoint: None,
        keepalive: 0,
        handshake: 0,
        received: 0,
        transmitted: 0,
        allowed_ips: None,
    }
}

/// What one more attribute makes of a peer's slots.
pub open spec fn peer_step(s: PeerSlots, a: PeerAttribute) -> Result<PeerSlots, PeerFailure> {
    match a {
        PeerAttribute::PublicKey(k) => match fill_once(s.public_key, k@) {
            Some(x) => Ok(PeerSlots { public_key: x, ..s }),
            None => Err(PeerFailure::Mismatch),
        },
        PeerAttribute::PresharedKey(k) => if crate::digest::all_zero(k@) {
            Ok(s)
        } else {
            Err(PeerFailure::PresharedKey)
        },
        PeerAttribute::Endpoint(e) => match fill_once(s.endpoint, e) {
            Some(x) => Ok(PeerSlots { endpoint: x, ..s }),
            None => Err(PeerFailure::Mismatch),
        },
        PeerAttribute::PersistentKeepalive(v) => Ok(PeerSlots { keepalive: v, ..s }),
        PeerAttribute::LastHandshake(v) => Ok(PeerSlots { handshake: v, ..s }),
        PeerAttribute::RxBytes(v) => Ok(PeerSlots { received: v, ..s }),
        PeerAttribute::TxBytes(v) => Ok(PeerSlots { transmitted: v, ..s }),
        PeerAttribute::AllowedIps(v) => match allowed_ips_spec(v@) {
            Some(ps) => match fill_once(s.allowed_ips, ps) {
                Some(x) => Ok(PeerSlots { allowed_ips: x, ..s }),
                None => Err(PeerFailure::Mismatch),
            },
            None => Err(PeerFailure::Mismatch),
        },
        PeerAttribute::ProtocolVersion(v) => if v <= 1 {
            Ok(s)
        } else {
            Err(PeerFailure::Mismatch)
        },
        _ => Err(PeerFailure::Mismatch),
    }
}

/// A peer's slots after its attributes, or the first rejection.
pub open spec fn peer_slots(attrs: Seq<PeerAttribute>) -> Result<PeerSlots, PeerFailure>
    decreases attrs.len(),
{
    if attrs.len() == 0 {
        Ok(empty_peer_slots())
    } else {
        match peer_slots(attrs.drop_last()) {
            Err(e) => Err(e),
            Ok(s) => peer_step(s, attrs.last()),
        }
    }
}

/// What one peer's readback reports.
#[derive(Clone, Debug)]
pub struct WireGuardPeerReadback {
    pub public_key: crate::keys::WireGuardPublicKey,
    pub endpoint: SocketAddr,
    pub persistent_keepalive_seconds: u16,
    pub allowed_ips: Vec<IpPrefix>,
    pub last_handshake_unix_seconds: i64,
    pub received_bytes: u64,
    pub transmitted_bytes: u64,
}

/// `p` is the readback of a peer whose attributes report `s`, with its
/// AllowedIPs in ascending order.
pub open spec fn peer_of(p: WireGuardPeerReadback, s: PeerSlots) -> bool {
    &&& s.public_key == Some(p.public_key.0@)
    &&& s.endpoint == Some(p.endpoint)
    &&& p.persistent_keepalive_seconds == s.keepalive
    &&& p.last_handshake_unix_seconds == s.handshake
    &&& p.received_bytes == s.received
    &&& p.transmitted_bytes == s.transmitted
    &&& s.allowed_ips matches Some(ips) && p.allowed_ips@.to_multiset() == ips.to_multiset()
    &&& crate::sorting::sorted_by_key(p.allowed_ips@)
}

/// The slots are complete: a key, an endpoint and AllowedIPs.
pub open spec fn peer_complete(s: PeerSlots) -> bool {
    s.public_key is Some && s.endpoint is Some && s.allowed_ips is Some
}

fn prefix_lists_equal(a: &Vec<IpPrefix>, b: &Vec<IpPrefix>) -> (r: bool)
    ensures
        r == (a@ == b@),
{
    if a.len() != b.len() {
        return false;
    }
    let mut i: usize = 0;
    while i < a.len()
        invariant
            a@.len() == b@.len(),
            i <= a@.len(),
            forall|j: int| 0 <= j < i ==> a@[j] == b@[j],
        decreases a@.len() - i,
    {
        if a[i] != b[i] {
            return false;
        }
        i = i + 1;
    }
    assert(a@ =~= b@);
    true
}

/// Decodes every AllowedIP of a peer, in order.
fn parse_allowed_ips(v: &Vec<Vec<AllowedIpAttribute>>) -> (r: Result<Vec<IpPrefix>, WireGuardKernelError>)
    ensures
        match allowed_ips_spec(v@) {
            Some(ps) => r matches Ok(out) && out@ == ps,
            None => r matches Err(e) && e is ReadbackMismatch,
        },
{
    let mut out: Vec<IpPrefix> = Vec::new();
    let mut i: usize = 0;
    while i < v.len()
        invariant
            i <= v@.len(),
            allowed_ips_spec(v@.take(i as int)) == Some(out@),
        decreases v@.len() - i,
    {
        proof {
            assert(v@.take(i + 1).drop_last() =~= v@.take(i as int));
            assert(v@.take(i + 1).last() == v@[i as int]);
        }
        match parse_allowed_ip(&v[i]) {
            Ok(p) => {
                out.push(p);
            },
            Err(e) => {
                proof {
                    lemma_allowed_ips_stop(v@, i as int + 1);
                }
                return Err(e);
            },
        }
        i = i + 1;
    }
    assert(v@.take(i as int) =~= v@);
    Ok(out)
}

proof fn lemma_allowed_ips_stop(v: Seq<Vec<AllowedIpAttribute>>, k: int)
    requires
        0 < k <= v.len(),
        allowed_ips_spec(v.take(k)) is None,
    ensures
        allowed_ips_spec(v) is None,
    decreases v.len() - k,
{
    if k < v.len() {
        assert(v.take(k + 1).drop_last() =~= v.take(k));
        lemma_allowed_ips_stop(v, k + 1);
    } else {
        assert(v.take(k) =~= v);
    }
}

proof fn lemma_peer_stop(attrs: Seq<PeerAttribute>, k: int)
    requires
        0 < k <= attrs.len(),
        peer_slots(attrs.take(k)) is Err,
    ensures
        peer_slots(attrs) == peer_slots(attrs.take(k)),
    decreases attrs.len() - k,
{
    if k < attrs.len() {
        assert(attrs.take(k + 1).drop_last() =~= attrs.take(k));
        lemma_peer_stop(attrs, k + 1);
    } else {
        assert(attrs.take(k) =~= attrs);
    }
}

pub open spec fn key_slot(k: Option<[u8; 32]>) -> Option<Seq<u8>> {
    match k {
        Some(x) => Some(x@),
        None => None,
    }
}

pub open spec fn prefixes_slot(v: Option<Vec<IpPrefix>>) -> Option<Seq<IpPrefix>> {
    match v {
        Some(x) => Some(x@),
        None => None,
    }
}

/// Decodes one reported peer.
#[verifier::rlimit(30)]
pub fn parse_peer(attrs: &Vec<PeerAttribute>) -> (r: Result<WireGuardPeerReadback, WireGuardKernelError>)
    ensures
        match peer_slots(attrs@) {
            Err(PeerFailure::Mismatch) => r matches Err(e) && e is ReadbackMismatch,
            Err(PeerFailure::PresharedKey) => r matches Err(WireGuardKernelError::ForeignState(m)) && m@
                == PRESHARED_KEY_MESSAGE@,
            Ok(s) => if peer_complete(s) {
                r matches Ok(p) && peer_of(p, s)
            } else {
                r matches Err(e) && e is ReadbackMismatch
            },
        },
{
    let mut public_key: Option<[u8; 32]> = None;
    let mut endpoint: Option<SocketAddr> = None;
    let mut keepalive: u16 = 0;
    let mut handshake: i64 = 0;
    let mut received: u64 = 0;
    let mut transmitted: u64 = 0;
    let mut allowed: Option<Vec<IpPrefix>> = None;
    let mut i: usize = 0;
    while i < attrs.len()
        invariant
            i <= attrs@.len(),
            peer_slots(attrs@.take(i as int)) == Ok::<PeerSlots, PeerFailure>(
                PeerSlots {
                    public_key: key_slot(public_key),
                    endpoint,
                    keepalive,
                    handshake,
                    received,
                    transmitted,
                    allowed_ips: prefixes_slot(allowed),
                },
            ),
        decreases attrs@.len() - i,
    {
        proof {
            assert(attrs@.take(i + 1).drop_last() =~= attrs@.take(i as int));
            assert(attrs@.take(i + 1).last() == attrs@[i as int]);
        }
        match &attrs[i] {
            PeerAttribute::PublicKey(k) => {
                if let Some(prior) = &public_key {
                    if !crate::digest::bytes32_eq(prior, k) {
                        proof {
                            lemma_peer_stop(attrs@, i as int + 1);
                        }
                        return Err(WireGuardKernelError::ReadbackMismatch);
                    }
                }
                public_key = Some(*k);
            },
            PeerAttribute::PresharedKey(k) => {
                if !crate::digest::bytes32_is_zero(k) {
                    proof {
                        lemma_peer_stop(attrs@, i as int + 1);
                    }
                    return Err(WireGuardKernelError::ForeignState(String::from_str(PRESHARED_KEY_MESSAGE)));
                }
            },
            PeerAttribute::Endpoint(e) => {
                if let Some(prior) = endpoint {
                    if prior != *e {
                        proof {
                            lemma_peer_stop(attrs@, i as int + 1);
                        }
                        return Err(WireGuardKernelError::ReadbackMismatch);
                    }
                }
                endpoint = Some(*e);
            },
            PeerAttribute::PersistentKeepalive(v) => {
                keepalive = *v;
            },
            PeerAttribute::LastHandshake(v) => {
                handshake = *v;
            },
            PeerAttribute::RxBytes(v) => {
                received = *v;
            },
            PeerAttribute::TxBytes(v) => {
                transmitted = *v;
            },
            PeerAttribute::AllowedIps(v) => {
                let parsed = match parse_allowed_ips(v) {
                    Ok(ps) => ps,
                    Err(e) => {
                        proof {
                            lemma_peer_stop(attrs@, i as int + 1);
                        }
                        return Err(e);
                    },
                };
                if let Some(prior) = &allowed {
                    if !prefix_lists_equal(prior, &parsed) {
                        proof {
                            lemma_peer_stop(attrs@, i as int + 1);
                        }
                        return Err(WireGuardKernelError::ReadbackMismatch);
                    }
                }
                allowed = Some(parsed);
            },
            PeerAttribute::ProtocolVersion(v) => {
                if *v > 1 {
                    proof {
                        lemma_peer_stop(attrs@, i as int + 1);
                    }
                    return Err(WireGuardKernelError::ReadbackMismatch);
                }
            },
            _ => {
                proof {
                    lemma_peer_stop(attrs@, i as int + 1);
                }
                return Err(WireGuardKernelError::ReadbackMismatch);
            },
        }
        i = i + 1;
    }
    assert(attrs@.take(i as int) =~= attrs@);
    let ips = match allowed {
        Some(v) => crate::sorting::sort_by_key(v),
        None => {
            return Err(WireGuardKernelError::ReadbackMismatch);
        },
    };
    let key = match public_key {
        Some(k) => k,
        None => {
            return Err(WireGuardKernelError::ReadbackMismatch);
        },
    };
    let ep = match endpoint {
        Some(e) => e,
        None => {
            return Err(WireGuardKernelError::ReadbackMismatch);
        },
    };
    Ok(
        WireGuardPeerReadback {
            public_key: crate::keys::WireGuardPublicKey(key),
            endpoint: ep,
            persistent_keepalive_seconds: keepalive,
            allowed_ips: ips,
            last_handshake_unix_seconds: handshake,
            received_bytes: received,
            transmitted_bytes: transmitted,
        },
    )
}

/// The laws of the byte order on sequences of one length.
pub proof fn lemma_bytes_order(a: Seq<u8>, b: Seq<u8>, c: Seq<u8>)
    requires
        a.len() == b.len(),
        b.len() == c.len(),
    ensures
        !bytes_lt(a, a),
        bytes_lt(a, b) ==> !bytes_lt(b, a),
        bytes_lt(a, b) && bytes_lt(b, c) ==> bytes_lt(a, c),
        !bytes_lt(b, a) && !bytes_lt(c, b) ==> !bytes_lt(c, a),
        !bytes_lt(a, b) && !bytes_lt(b, a) ==> a == b,
    decreases a.len(),
{
    if a.len() > 0 {
        lemma_bytes_order(a.drop_first(), b.drop_first(), c.drop_first());
        if a[0] == b[0] && !bytes_lt(a.drop_first(), b.drop_first()) && !bytes_lt(b.drop_first(), a.drop_first()) {
            assert(a =~= seq![a[0]] + a.drop_first());
            assert(b =~= seq![b[0]] + b.drop_first());
        }
    } else {
        assert(a =~= b);
    }
}

/// Peers are ordered by public key.
impl crate::sorting::Keyed for WireGuardPeerReadback {
    open spec fn key_lt(self, other: Self) -> bool {
        bytes_lt(self.public_key.0@, other.public_key.0@)
    }

    proof fn lemma_key_order(a: Self, b: Self, c: Self) {
        lemma_bytes_order(a.public_key.0@, b.public_key.0@, c.public_key.0@);
    }

    fn key_less(&self, other: &Self) -> (r: bool) {
        crate::digest::bytes32_lt(&self.public_key.0, &other.public_key.0)
    }
}

/// One attribute of a reported WireGuard device.
#[derive(Clone, Debug)]
pub enum DeviceAttribute {
    IfName(String),
    IfIndex(u32),
    PrivateKey,
    PublicKey([u8; 32]),
    ListenPort(u16),
    Fwmark(u32),
    Peers(Vec<Vec<PeerAttribute>>),
    Flags,
    Other,
}

/// One response to a device dump, in the order received.
#[derive(Clone, Debug)]
pub enum DeviceResponse {
    Attributes(Vec<DeviceAttribute>),
    KernelError(String),
    Other,
}

/// What a device dump reports so far.
pub struct DeviceSlots {
    pub name: Option<Seq<char>>,
    pub index: Option<u32>,
    pub public_key: Option<Seq<u8>>,
    pub listen_port: Option<u16>,
    pub fwmark: Option<u32>,
    pub peers: Seq<PeerSlots>,
}

/// Why a device dump is rejected.
pub enum DeviceFailure {
    Mismatch,
    Peer(PeerFailure),
    Kernel(Seq<char>),
}

pub const GET_DEVICE_OPERATION: &'static str = "get WireGuard device";

/// A complete peer, or why it is rejected.
pub open spec fn peer_outcome(attrs: Seq<PeerAttribute>) -> Result<PeerSlots, PeerFailure> {
    match peer_slots(attrs) {
        Ok(s) => if peer_complete(s) {
            Ok(s)
        } else {
            Err(PeerFailure::Mismatch)
        },
        Err(e) => Err(e),
    }
}

/// `acc` with the peers of `v` appended in order, or the first rejection.
pub open spec fn peers_fold(acc: Seq<PeerSlots>, v: Seq<Vec<PeerAttribute>>) -> Result<Seq<PeerSlots>, PeerFailure>
    decreases v.len(),
{
    if v.len() == 0 {
        Ok(acc)
    } else {
        match peers_fold(acc, v.drop_last()) {
            Err(e) => Err(e),
            Ok(ps) => match peer_outcome(v.last()@) {
                Ok(p) => Ok(ps.push(p)),
                Err(e) => Err(e),
            },
        }
    }
}

/// What one more device attribute makes of the slots.
pub open spec fn device_step(s: DeviceSlots, a: DeviceAttribute) -> Result<DeviceSlots, DeviceFailure> {
    match a {
        DeviceAttribute::IfName(v) => match fill_once(s.name, v@) {
            Some(x) => Ok(DeviceSlots { name: x, ..s }),
            None => Err(DeviceFailure::Mismatch),
        },
        DeviceAttribute::IfIndex(v) => match fill_once(s.index, v) {
            Some(x) => Ok(DeviceSlots { index: x, ..s }),
            None => Err(DeviceFailure::Mismatch),
        },
        DeviceAttribute::PrivateKey => Ok(s),
        DeviceAttribute::PublicKey(k) => match fill_once(s.public_key, k@) {
            Some(x) => Ok(DeviceSlots { public_key: x, ..s }),
            None => Err(DeviceFailure::Mismatch),
        },
        DeviceAttribute::ListenPort(v) => match fill_once(s.listen_port, v) {
            Some(x) => Ok(DeviceSlots { listen_port: x, ..s }),
            None => Err(DeviceFailure::Mismatch),
        },
        DeviceAttribute::Fwmark(v) => match fill_once(s.fwmark, v) {
            Some(x) => Ok(DeviceSlots { fwmark: x, ..s }),
            None => Err(DeviceFailure::Mismatch),
        },
        DeviceAttribute::Peers(v) => match peers_fold(s.peers, v@) {
            Ok(ps) => Ok(DeviceSlots { peers: ps, ..s }),
            Err(e) => Err(DeviceFailure::Peer(e)),
        },
        _ => Err(DeviceFailure::Mismatch),
    }
}

/// The slots after the attributes `v`, from `s`.
pub open spec fn attributes_fold(s: DeviceSlots, v: Seq<DeviceAttribute>) -> Result<DeviceSlots, DeviceFailure>
    decreases v.len(),
{
    if v.len() == 0 {
        Ok(s)
    } else {
        match attributes_fold(s, v.drop_last()) {
            Err(e) => Err(e),
            Ok(t) => device_step(t, v.last()),
        }
    }
}

pub open spec fn empty_device_slots() -> DeviceSlots {
    DeviceSlots { name: None, index: None, public_key: None, listen_port: None, fwmark: None, peers: Seq::empty() }
}

/// The slots after a device dump, or the first rejection.
pub open spec fn device_slots(rs: Seq<DeviceResponse>) -> Result<DeviceSlots, DeviceFailure>
    decreases rs.len(),
{
    if rs.len() == 0 {
        Ok(empty_device_slots())
    } else {
        match device_slots(rs.drop_last()) {
            Err(e) => Err(e),
            Ok(t) => match rs.last() {
                DeviceResponse::Attributes(v) => attributes_fold(t, v@),
                DeviceResponse::KernelError(m) => Err(DeviceFailure::Kernel(m@)),
                DeviceResponse::Other => Ok(t),
            },
        }
    }
}

/// The device identity that a readback must report.
pub open spec fn device_complete(s: DeviceSlots) -> bool {
    s.name is Some && s.index is Some && s.public_key is Some && s.listen_port is Some && s.fwmark is Some
}

/// A decoded device dump.
pub struct ParsedDevice {
    pub interface_name: String,
    pub interface_index: u32,
    pub public_key: crate::keys::WireGuardPublicKey,
    pub listen_port: u16,
    pub fwmark: u32,
    pub peers: Vec<WireGuardPeerReadback>,
}

/// `out` holds, in some order, one readback per peer of `ps`.
pub open spec fn peers_read_as(out: Seq<WireGuardPeerReadback>, ps: Seq<PeerSlots>) -> bool {
    exists|q: Seq<WireGuardPeerReadback>|
        #![trigger q.to_multiset()]
        q.len() == ps.len() && (forall|k: int| 0 <= k < q.len() ==> peer_of(#[trigger] q[k], ps[k]))
            && out.to_multiset() == q.to_multiset()
}

/// `d` is what a complete dump reporting `s` decodes to, peers ordered by
/// public key.
pub open spec fn device_of(d: ParsedDevice, s: DeviceSlots) -> bool {
    &&& s.name == Some(d.interface_name@)
    &&& s.index == Some(d.interface_index)
    &&& s.public_key == Some(d.public_key.0@)
    &&& s.listen_port == Some(d.listen_port)
    &&& s.fwmark == Some(d.fwmark)
    &&& crate::sorting::sorted_by_key(d.peers@)
    &&& peers_read_as(d.peers@, s.peers)
}

/// `e` is the error that reports peer rejection `f`.
pub open spec fn peer_error_of(f: PeerFailure, e: WireGuardKernelError) -> bool {
    match f {
        PeerFailure::Mismatch => e is ReadbackMismatch,
        PeerFailure::PresharedKey => e matches WireGuardKernelError::ForeignState(m) && m@ == PRESHARED_KEY_MESSAGE@,
    }
}

/// `e` is the error that reports device rejection `f`.
pub open spec fn device_error_of(f: DeviceFailure, e: WireGuardKernelError) -> bool {
    match f {
        DeviceFailure::Mismatch => e is ReadbackMismatch,
        DeviceFailure::Peer(p) => peer_error_of(p, e),
        DeviceFailure::Kernel(m) => e matches WireGuardKernelError::Kernel { operation, message } && operation@
            == GET_DEVICE_OPERATION@ && message@ == m,
    }
}

/// Each readback is that of the peer at its position.
pub open spec fn peers_match(out: Seq<WireGuardPeerReadback>, ps: Seq<PeerSlots>) -> bool {
    &&& out.len() == ps.len()
    &&& forall|k: int| 0 <= k < out.len() ==> peer_of(#[trigger] out[k], ps[k])
}

fn decode_one_peer(attrs: &Vec<PeerAttribute>) -> (r: Result<WireGuardPeerReadback, WireGuardKernelError>)
    ensures
        match peer_outcome(attrs@) {
            Ok(s) => r matches Ok(p) && peer_of(p, s),
            Err(f) => r matches Err(e) && peer_error_of(f, e),
        },
{
    parse_peer(attrs)
}

proof fn lemma_peers_fold_stop(acc: Seq<PeerSlots>, v: Seq<Vec<PeerAttribute>>, k: int)
    requires
        0 < k <= v.len(),
        peers_fold(acc, v.take(k)) is Err,
    ensures
        peers_fold(acc, v) == peers_fold(acc, v.take(k)),
    decreases v.len() - k,
{
    if k < v.len() {
        assert(v.take(k + 1).drop_last() =~= v.take(k));
        lemma_peers_fold_stop(acc, v, k + 1);
    } else {
        assert(v.take(k) =~= v);
    }
}

/// Decodes a list of peers onto those already decoded.
fn decode_peers(v: &Vec<Vec<PeerAttribute>>, out: &mut Vec<WireGuardPeerReadback>, Ghost(acc): Ghost<Seq<PeerSlots>>) -> (r: Result<(), WireGuardKernelError>)
    requires
        peers_match(old(out)@, acc),
    ensures
        match peers_fold(acc, v@) {
            Ok(ps) => r is Ok && peers_match(final(out)@, ps),
            Err(f) => r matches Err(e) && peer_error_of(f, e),
        },
{
    let mut i: usize = 0;
    assert(v@.take(0) =~= Seq::<Vec<PeerAttribute>>::empty());
    while i < v.len()
        invariant
            i <= v@.len(),
            peers_fold(acc, v@.take(i as int)) is Ok,
            peers_match(out@, peers_fold(acc, v@.take(i as int))->Ok_0),
        decreases v@.len() - i,
    {
        proof {
            assert(v@.take(i + 1).drop_last() =~= v@.take(i as int));
            assert(v@.take(i + 1).last() == v@[i as int]);
        }
        let ghost before = peers_fold(acc, v@.take(i as int))->Ok_0;
        match decode_one_peer(&v[i]) {
            Ok(p) => {
                out.push(p);
                proof {
                    let after = peers_fold(acc, v@.take(i + 1))->Ok_0;
                    assert(after == before.push(peer_outcome(v@[i as int]@)->Ok_0));
                }
            },
            Err(e) => {
                proof {
                    lemma_peers_fold_stop(acc, v@, i as int + 1);
                }
                return Err(e);
            },
        }
        i = i + 1;
    }
    assert(v@.take(i as int) =~= v@);
    Ok(())
}

/// A device dump being decoded.
pub struct DeviceState {
    pub name: Option<String>,
    pub index: Option<u32>,
    pub public_key: Option<[u8; 32]>,
    pub listen_port: Option<u16>,
    pub fwmark: Option<u32>,
    pub peers: Vec<WireGuardPeerReadback>,
}

pub open spec fn name_slot(n: Option<String>) -> Option<Seq<char>> {
    match n {
        Some(x) => Some(x@),
        None => None,
    }
}

/// The state holds the slots `s`.
pub open spec fn state_holds(st: DeviceState, s: DeviceSlots) -> bool {
    &&& s.name == name_slot(st.name)
    &&& s.index == st.index
    &&& s.public_key == key_slot(st.public_key)
    &&& s.listen_port == st.listen_port
    &&& s.fwmark == st.fwmark
    &&& peers_match(st.peers@, s.peers)
}

proof fn lemma_attributes_stop(s0: DeviceSlots, v: Seq<DeviceAttribute>, k: int)
    requires
        0 < k <= v.len(),
        attributes_fold(s0, v.take(k)) is Err,
    ensures
        attributes_fold(s0, v) == attributes_fold(s0, v.take(k)),
    decreases v.len() - k,
{
    if k < v.len() {
        assert(v.take(k + 1).drop_last() =~= v.take(k));
        lemma_attributes_stop(s0, v, k + 1);
    } else {
        assert(v.take(k) =~= v);
    }
}

/// Decodes one response's attributes into the state.
#[verifier::rlimit(40)]
fn decode_attributes(st: &mut DeviceState, v: &Vec<DeviceAttribute>, Ghost(s0): Ghost<DeviceSlots>) -> (r: Result<(), WireGuardKernelError>)
    requires
        state_holds(*old(st), s0),
    ensures
        match attributes_fold(s0, v@) {
            Ok(s) => r is Ok && state_holds(*final(st), s),
            Err(f) => r matches Err(e) && device_error_of(f, e),
        },
{
    let mut i: usize = 0;
    assert(v@.take(0) =~= Seq::<DeviceAttribute>::empty());
    while i < v.len()
        invariant
            i <= v@.len(),
            attributes_fold(s0, v@.take(i as int)) is Ok,
            state_holds(*st, attributes_fold(s0, v@.take(i as int))->Ok_0),
        decreases v@.len() - i,
    {
        proof {
            assert(v@.take(i + 1).drop_last() =~= v@.take(i as int));
            assert(v@.take(i + 1).last() == v@[i as int]);
        }
        let ghost cur = attributes_fold(s0, v@.take(i as int))->Ok_0;
        match &v[i] {
            DeviceAttribute::IfName(n) => {
                if let Some(prior) = &st.name {
                    if !crate::text::text_eq(prior.as_str(), n.as_str()) {
                        proof {
                            lemma_attributes_stop(s0, v@, i as int + 1);
                        }
                        return Err(WireGuardKernelError::ReadbackMismatch);
                    }
                }
                st.name = Some(n.clone());
            },
            DeviceAttribute::IfIndex(x) => {
                if let Some(prior) = st.index {
                    if prior != *x {
                        proof {
                            lemma_attributes_stop(s0, v@, i as int + 1);
                        }
                        return Err(WireGuardKernelError::ReadbackMismatch);
                    }
                }
                st.index = Some(*x);
            },
            DeviceAttribute::PrivateKey => {},
            DeviceAttribute::PublicKey(k) => {
                if let Some(prior) = &st.public_key {
                    if !crate::digest::bytes32_eq(prior, k) {
                        proof {
                            lemma_attributes_stop(s0, v@, i as int + 1);
                        }
                        return Err(WireGuardKernelError::ReadbackMismatch);
                    }
                }
                st.public_key = Some(*k);
            },
            DeviceAttribute::ListenPort(x) => {
                if let Some(prior) = st.listen_port {
                    if prior != *x {
                        proof {
                            lemma_attributes_stop(s0, v@, i as int + 1);
                        }
                        return Err(WireGuardKernelError::ReadbackMismatch);
                    }
                }
                st.listen_port = Some(*x);
            },
            DeviceAttribute::Fwmark(x) => {
                if let Some(prior) = st.fwmark {
                    if prior != *x {
                        proof {
                            lemma_attributes_stop(s0, v@, i as int + 1);
                        }
                        return Err(WireGuardKernelError::ReadbackMismatch);
                    }
                }
                st.fwmark = Some(*x);
            },
            DeviceAttribute::Peers(ps) => {
                match decode_peers(ps, &mut st.peers, Ghost(cur.peers)) {
                    Ok(()) => {},
                    Err(e) => {
                        proof {
                            lemma_attributes_stop(s0, v@, i as int + 1);
                        }
                        return Err(e);
                    },
                }
            },
            _ => {
                proof {
                    lemma_attributes_stop(s0, v@, i as int + 1);
                }
                return Err(WireGuardKernelError::ReadbackMismatch);
            },
        }
        i = i + 1;
    }
    assert(v@.take(i as int) =~= v@);
    Ok(())
}

proof fn lemma_device_stop(rs: Seq<DeviceResponse>, k: int)
    requires
        0 < k <= rs.len(),
        device_slots(rs.take(k)) is Err,
    ensures
        device_slots(rs) == device_slots(rs.take(k)),
    decreases rs.len() - k,
{
    if k < rs.len() {
        assert(rs.take(k + 1).drop_last() =~= rs.take(k));
        lemma_device_stop(rs, k + 1);
    } else {
        assert(rs.take(k) =~= rs);
    }
}

/// Decodes a WireGuard device dump: every identity field reported once,
/// every peer decoded, peers ordered by public key.
#[verifier::rlimit(30)]
pub fn decode_device(rs: &Vec<DeviceResponse>) -> (r: Result<ParsedDevice, WireGuardKernelError>)
    ensures
        match device_slots(rs@) {
            Ok(s) => if device_complete(s) {
                r matches Ok(d) && device_of(d, s)
            } else {
                r matches Err(e) && e is ReadbackMismatch
            },
            Err(f) => r matches Err(e) && device_error_of(f, e),
        },
{
    let mut st = DeviceState {
        name: None,
        index: None,
        public_key: None,
        listen_port: None,
        fwmark: None,
        peers: Vec::new(),
    };
    let mut i: usize = 0;
    assert(rs@.take(0) =~= Seq::<DeviceResponse>::empty());
    while i < rs.len()
        invariant
            i <= rs@.len(),
            device_slots(rs@.take(i as int)) is Ok,
            state_holds(st, device_slots(rs@.take(i as int))->Ok_0),
        decreases rs@.len() - i,
    {
        proof {
            assert(rs@.take(i + 1).drop_last() =~= rs@.take(i as int));
            assert(rs@.take(i + 1).last() == rs@[i as int]);
        }
        let ghost cur = device_slots(rs@.take(i as int))->Ok_0;
        match &rs[i] {
            DeviceResponse::Attributes(v) => {
                match decode_attributes(&mut st, v, Ghost(cur)) {
                    Ok(()) => {},
                    Err(e) => {
                        proof {
                            lemma_device_stop(rs@, i as int + 1);
                        }
                        return Err(e);
                    },
                }
            },
            DeviceResponse::KernelError(m) => {
                proof {
                    lemma_device_stop(rs@, i as int + 1);
                }
                return Err(WireGuardKernelError::Kernel { operation: GET_DEVICE_OPERATION, message: m.clone() });
            },
            DeviceResponse::Other => {},
        }
        i = i + 1;
    }
    assert(rs@.take(i as int) =~= rs@);
    let DeviceState { name, index, public_key, listen_port, fwmark, peers } = st;
    let ghost unsorted = peers@;
    let peers = crate::sorting::sort_by_key(peers);
    proof {
        assert(peers@.to_multiset() == unsorted.to_multiset());
    }
    let interface_name = match name {
        Some(n) => n,
        None => {
            return Err(WireGuardKernelError::ReadbackMismatch);
        },
    };
    let interface_index = match index {
        Some(x) => x,
        None => {
            return Err(WireGuardKernelError::ReadbackMismatch);
        },
    };
    let key = match public_key {
        Some(k) => k,
        None => {
            return Err(WireGuardKernelError::ReadbackMismatch);
        },
    };
    let port = match listen_port {
        Some(x) => x,
        None => {
            return Err(WireGuardKernelError::ReadbackMismatch);
        },
    };
    let mark = match fwmark {
        Some(x) => x,
        None => {
            return Err(WireGuardKernelError::ReadbackMismatch);
        },
    };
    let d = ParsedDevice {
        interface_name,
        interface_index,
        public_key: crate::keys::WireGuardPublicKey(key),
        listen_port: port,
        fwmark: mark,
        peers,
    };
    proof {
        let s = device_slots(rs@)->Ok_0;
        assert(peers_match(unsorted, s.peers));
        assert(unsorted.len() == s.peers.len() && (forall|k: int| 0 <= k < unsorted.len() ==> peer_of(#[trigger] unsorted[k], s.peers[k]))
            && d.peers@.to_multiset() == unsorted.to_multiset());
        assert(peers_read_as(d.peers@, s.peers));
    }
    Ok(d)
}

/// One attribute of a reported link; `Kind` tells whether the link kind is
/// WireGuard.
#[derive(Clone, Debug)]
pub enum LinkAttribute {
    IfName,
    IfAlias(String),
    Mtu(u32),
    Kind(bool),
    Other,
}

/// A reported link: its index, whether it is up, and its attributes.
#[derive(Clone, Debug)]
pub struct LinkRecord {
    pub index: u32,
    pub is_up: bool,
    pub attributes: Vec<LinkAttribute>,
}

/// The decoded state of an owned link.
pub struct ParsedLink {
    pub owner_alias: String,
    pub is_up: bool,
    pub mtu: u32,
}

pub const NOT_WIREGUARD_MESSAGE: &'static str = "same-name link is not WireGuard";
pub const NO_ALIAS_MESSAGE: &'static str = "WireGuard link has no ownership alias";
pub const FOREIGN_ALIAS_MESSAGE: &'static str = "same-name WireGuard link has another ownership alias";

/// Whether a name was reported, and the last alias, MTU and kind reported.
pub open spec fn link_scan(v: Seq<LinkAttribute>) -> (bool, Option<Seq<char>>, Option<u32>, Option<bool>)
    decreases v.len(),
{
    if v.len() == 0 {
        (false, None, None, None)
    } else {
        let (n, a, m, k) = link_scan(v.drop_last());
        match v.last() {
            LinkAttribute::IfName => (true, a, m, k),
            LinkAttribute::IfAlias(x) => (n, Some(x@), m, k),
            LinkAttribute::Mtu(x) => (n, a, Some(x), k),
            LinkAttribute::Kind(x) => (n, a, m, Some(x)),
            LinkAttribute::Other => (n, a, m, k),
        }
    }
}

/// What decoding a link answers: not WireGuard, no alias, no MTU, or its
/// alias and MTU.
pub open spec fn link_outcome(l: LinkRecord) -> Result<(Seq<char>, u32), Seq<char>> {
    let (n, a, m, k) = link_scan(l.attributes@);
    if !n || k != Some(true) {
        Err(NOT_WIREGUARD_MESSAGE@)
    } else if a is None {
        Err(NO_ALIAS_MESSAGE@)
    } else if m is None {
        Err(Seq::empty())
    } else {
        Ok((a->0, m->0))
    }
}

/// `e` reports the link rejection `m`: a foreign-state message, or a
/// readback mismatch where `m` is empty.
pub open spec fn link_error_of(m: Seq<char>, e: WireGuardKernelError) -> bool {
    if m.len() == 0 {
        e is ReadbackMismatch
    } else {
        e matches WireGuardKernelError::ForeignState(x) && x@ == m
    }
}

/// Decodes a same-name link: it must be a WireGuard link with an ownership
/// alias and an MTU.
pub fn parse_link(l: &LinkRecord) -> (r: Result<ParsedLink, WireGuardKernelError>)
    ensures
        match link_outcome(*l) {
            Ok((alias, mtu)) => r matches Ok(p) && p.owner_alias@ == alias && p.mtu == mtu && p.is_up == l.is_up,
            Err(m) => r matches Err(e) && link_error_of(m, e),
        },
{
    let mut named = false;
    let mut alias: Option<String> = None;
    let mut mtu: Option<u32> = None;
    let mut kind: Option<bool> = None;
    let mut i: usize = 0;
    while i < l.attributes.len()
        invariant
            i <= l.attributes@.len(),
            link_scan(l.attributes@.take(i as int)) == (named, name_slot(alias), mtu, kind),
        decreases l.attributes@.len() - i,
    {
        proof {
            assert(l.attributes@.take(i + 1).drop_last() =~= l.attributes@.take(i as int));
            assert(l.attributes@.take(i + 1).last() == l.attributes@[i as int]);
        }
        match &l.attributes[i] {
            LinkAttribute::IfName => {
                named = true;
            },
            LinkAttribute::IfAlias(x) => {
                alias = Some(x.clone());
            },
            LinkAttribute::Mtu(x) => {
                mtu = Some(*x);
            },
            LinkAttribute::Kind(x) => {
                kind = Some(*x);
            },
            LinkAttribute::Other => {},
        }
        i = i + 1;
    }
    assert(l.attributes@.take(i as int) =~= l.attributes@);
    proof {
        reveal_strlit("same-name link is not WireGuard");
        reveal_strlit("WireGuard link has no ownership alias");
    }
    let wireguard = match kind {
        Some(k) => k,
        None => false,
    };
    if !named || !wireguard {
        return Err(WireGuardKernelError::ForeignState(String::from_str(NOT_WIREGUARD_MESSAGE)));
    }
    let owner_alias = match alias {
        Some(a) => a,
        None => {
            return Err(WireGuardKernelError::ForeignState(String::from_str(NO_ALIAS_MESSAGE)));
        },
    };
    let m = match mtu {
        Some(m) => m,
        None => {
            return Err(WireGuardKernelError::ReadbackMismatch);
        },
    };
    Ok(ParsedLink { owner_alias, is_up: l.is_up, mtu: m })
}

/// Accepts a same-name link only as the WireGuard link that carries the
/// expected ownership alias.
pub fn validate_owned_link(l: &LinkRecord, owner_alias: &str) -> (r: Result<(), WireGuardKernelError>)
    ensures
        match link_outcome(*l) {
            Ok((alias, _)) => if alias == owner_alias@ {
                r is Ok
            } else {
                r matches Err(WireGuardKernelError::ForeignState(x)) && x@ == FOREIGN_ALIAS_MESSAGE@
            },
            Err(m) => r matches Err(e) && link_error_of(m, e),
        },
{
    let parsed = parse_link(l)?;
    if !crate::text::text_eq(parsed.owner_alias.as_str(), owner_alias) {
        return Err(WireGuardKernelError::ForeignState(String::from_str(FOREIGN_ALIAS_MESSAGE)));
    }
    Ok(())
}

/// One attribute of a reported route; `Destination` only for an IP
/// destination.
#[derive(Clone, Copy, Debug)]
pub enum RouteAttribute {
    Destination(IpAddr),
    Table(u32),
    Oif(u32),
    Other,
}

/// A reported route: its attributes and the header fields the decisions
/// read (protocol, scope and type as their kernel codes).
#[derive(Clone, Debug)]
pub struct RouteRecord {
    pub attributes: Vec<RouteAttribute>,
    pub destination_prefix_length: u8,
    pub header_table: u8,
    pub protocol: u8,
    pub scope: u8,
    pub kind: u8,
}

pub const ROUTE_PROTOCOL_KERNEL: u8 = 2;
pub const ROUTE_SCOPE_UNIVERSE: u8 = 0;
pub const ROUTE_SCOPE_LINK: u8 = 253;
pub const ROUTE_SCOPE_HOST: u8 = 254;
pub const ROUTE_TYPE_UNICAST: u8 = 1;
pub const ROUTE_TYPE_LOCAL: u8 = 2;
pub const ROUTE_TABLE_MAIN: u32 = 254;
pub const ROUTE_TABLE_LOCAL: u32 = 255;

/// The first IP destination among the attributes.
pub open spec fn first_destination(v: Seq<RouteAttribute>) -> Option<IpAddr>
    decreases v.len(),
{
    if v.len() == 0 {
        None
    } else {
        match v[0] {
            RouteAttribute::Destination(a) => Some(a),
            _ => first_destination(v.drop_first()),
        }
    }
}

/// The first table attribute.
pub open spec fn first_table(v: Seq<RouteAttribute>) -> Option<u32>
    decreases v.len(),
{
    if v.len() == 0 {
        None
    } else {
        match v[0] {
            RouteAttribute::Table(t) => Some(t),
            _ => first_table(v.drop_first()),
        }
    }
}

/// The first output-interface attribute.
pub open spec fn first_oif(v: Seq<RouteAttribute>) -> Option<u32>
    decreases v.len(),
{
    if v.len() == 0 {
        None
    } else {
        match v[0] {
            RouteAttribute::Oif(t) => Some(t),
            _ => first_oif(v.drop_first()),
        }
    }
}

/// A route's key: its destination prefix and table (the header's table
/// where no table attribute is reported); none without an IP destination.
pub open spec fn route_key_spec(m: RouteRecord) -> Option<(IpPrefix, u32)> {
    match first_destination(m.attributes@) {
        Some(a) => Some(
            (
                IpPrefix { address: a, prefix_len: m.destination_prefix_length },
                match first_table(m.attributes@) {
                    Some(t) => t,
                    None => m.header_table as u32,
                },
            ),
        ),
        None => None,
    }
}

/// The scope code that an owned route to `p` carries.
pub open spec fn owned_scope(p: IpPrefix) -> u8 {
    match p.address {
        IpAddr::V4(_) => ROUTE_SCOPE_LINK,
        IpAddr::V6(_) => ROUTE_SCOPE_UNIVERSE,
    }
}

/// The route is exactly the owned route to `p` through interface `index`.
pub open spec fn route_exact(m: RouteRecord, p: IpPrefix, index: u32) -> bool {
    &&& m.protocol == crate::kernel_provider::UNF_WIREGUARD_ROUTE_PROTOCOL
    &&& m.scope == owned_scope(p)
    &&& first_oif(m.attributes@) == Some(index)
}

/// The IPv6 multicast route that the kernel adds to every WireGuard link.
pub open spec fn kernel_multicast(m: RouteRecord) -> bool {
    &&& route_key_spec(m) == Some((IpPrefix { address: IpAddr::V6(0xff00u128 << 112u128), prefix_len: 8 }, ROUTE_TABLE_LOCAL))
    &&& m.protocol == ROUTE_PROTOCOL_KERNEL
    &&& m.scope == ROUTE_SCOPE_UNIVERSE
}

/// A route that the kernel adds for one of the proof addresses on the link.
pub open spec fn kernel_proof_route(m: RouteRecord, proof_addresses: Seq<IpPrefix>, index: u32) -> bool {
    match route_key_spec(m) {
        Some((p, t)) => {
            &&& proof_addresses.contains(p)
            &&& first_oif(m.attributes@) == Some(index)
            &&& m.protocol == ROUTE_PROTOCOL_KERNEL
            &&& {
                ||| t == ROUTE_TABLE_LOCAL && m.scope == (match p.address {
                    IpAddr::V4(_) => ROUTE_SCOPE_HOST,
                    IpAddr::V6(_) => ROUTE_SCOPE_UNIVERSE,
                }) && m.kind == ROUTE_TYPE_LOCAL
                ||| t == ROUTE_TABLE_MAIN && m.scope == (match p.address {
                    IpAddr::V4(_) => ROUTE_SCOPE_LINK,
                    IpAddr::V6(_) => ROUTE_SCOPE_UNIVERSE,
                }) && m.kind == ROUTE_TYPE_UNICAST
            }
        },
        None => false,
    }
}

fn first_destination_of(v: &Vec<RouteAttribute>) -> (r: Option<IpAddr>)
    ensures
        r == first_destination(v@),
{
    let mut i: usize = 0;
    assert(v@.skip(0) =~= v@);
    while i < v.len()
        invariant
            i <= v@.len(),
            first_destination(v@) == first_destination(v@.skip(i as int)),
        decreases v@.len() - i,
    {
        assert(v@.skip(i as int)[0] == v@[i as int]);
        if let RouteAttribute::Destination(a) = v[i] {
            return Some(a);
        }
        assert(v@.skip(i as int).drop_first() =~= v@.skip(i + 1));
        i = i + 1;
    }
    None
}

fn first_table_of(v: &Vec<RouteAttribute>) -> (r: Option<u32>)
    ensures
        r == first_table(v@),
{
    let mut i: usize = 0;
    assert(v@.skip(0) =~= v@);
    while i < v.len()
        invariant
            i <= v@.len(),
            first_table(v@) == first_table(v@.skip(i as int)),
        decreases v@.len() - i,
    {
        assert(v@.skip(i as int)[0] == v@[i as int]);
        if let RouteAttribute::Table(t) = v[i] {
            return Some(t);
        }
        assert(v@.skip(i as int).drop_first() =~= v@.skip(i + 1));
        i = i + 1;
    }
    None
}

/// The output interface of a route.
pub fn route_oif(m: &RouteRecord) -> (r: Option<u32>)
    ensures
        r == first_oif(m.attributes@),
{
    first_oif_of(&m.attributes)
}

fn first_oif_of(v: &Vec<RouteAttribute>) -> (r: Option<u32>)
    ensures
        r == first_oif(v@),
{
    let mut i: usize = 0;
    assert(v@.skip(0) =~= v@);
    while i < v.len()
        invariant
            i <= v@.len(),
            first_oif(v@) == first_oif(v@.skip(i as int)),
        decreases v@.len() - i,
    {
        assert(v@.skip(i as int)[0] == v@[i as int]);
        if let RouteAttribute::Oif(t) = v[i] {
            return Some(t);
        }
        assert(v@.skip(i as int).drop_first() =~= v@.skip(i + 1));
        i = i + 1;
    }
    None
}

/// The key of a route.
pub fn route_key(m: &RouteRecord) -> (r: Option<(IpPrefix, u32)>)
    ensures
        r == route_key_spec(*m),
{
    let a = match first_destination_of(&m.attributes) {
        Some(a) => a,
        None => {
            return None;
        },
    };
    let table = match first_table_of(&m.attributes) {
        Some(t) => t,
        None => m.header_table as u32,
    };
    Some((IpPrefix { address: a, prefix_len: m.destination_prefix_length }, table))
}

/// Whether the route is exactly the owned route to `p` through `index`.
pub fn route_is_exact(m: &RouteRecord, p: IpPrefix, index: u32) -> (r: bool)
    ensures
        r == route_exact(*m, p, index),
{
    let scope: u8 = match p.address {
        IpAddr::V4(_) => ROUTE_SCOPE_LINK,
        IpAddr::V6(_) => ROUTE_SCOPE_UNIVERSE,
    };
    m.protocol == crate::kernel_provider::UNF_WIREGUARD_ROUTE_PROTOCOL && m.scope == scope && route_oif(m) == Some(index)
}

/// Whether the route is the kernel's own IPv6 multicast route.
pub fn is_kernel_generated_wireguard_multicast(m: &RouteRecord) -> (r: bool)
    ensures
        r == kernel_multicast(*m),
{
    let multicast = IpPrefix { address: IpAddr::V6(0xff00u128 << 112u128), prefix_len: 8 };
    let key_matches = match route_key(m) {
        Some((p, t)) => p == multicast && t == ROUTE_TABLE_LOCAL,
        None => false,
    };
    key_matches && m.protocol == ROUTE_PROTOCOL_KERNEL && m.scope == ROUTE_SCOPE_UNIVERSE
}

pub(crate) fn prefix_listed(v: &Vec<IpPrefix>, p: IpPrefix) -> (r: bool)
    ensures
        r == v@.contains(p),
{
    let mut i: usize = 0;
    while i < v.len()
        invariant
            i <= v@.len(),
            forall|j: int| 0 <= j < i ==> v@[j] != p,
        decreases v@.len() - i,
    {
        if v[i] == p {
            return true;
        }
        i = i + 1;
    }
    false
}

/// Whether the route is one the kernel adds for a proof address on the link.
pub fn is_kernel_generated_proof_address_route(m: &RouteRecord, proof_addresses: &Vec<IpPrefix>, index: u32) -> (r: bool)
    ensures
        r == kernel_proof_route(*m, proof_addresses@, index),
{
    let (p, t) = match route_key(m) {
        Some(k) => k,
        None => {
            return false;
        },
    };
    let (host_scope, main_scope): (u8, u8) = match p.address {
        IpAddr::V4(_) => (ROUTE_SCOPE_HOST, ROUTE_SCOPE_LINK),
        IpAddr::V6(_) => (ROUTE_SCOPE_UNIVERSE, ROUTE_SCOPE_UNIVERSE),
    };
    prefix_listed(proof_addresses, p) && route_oif(m) == Some(index) && m.protocol == ROUTE_PROTOCOL_KERNEL && ((t
        == ROUTE_TABLE_LOCAL && m.scope == host_scope && m.kind == ROUTE_TYPE_LOCAL) || (t == ROUTE_TABLE_MAIN
        && m.scope == main_scope && m.kind == ROUTE_TYPE_UNICAST))
}

/// What one owned route reads back as.
#[derive(Clone, Copy, Debug)]
pub struct WireGuardRouteReadback {
    pub prefix: IpPrefix,
    pub interface_index: u32,
    pub table: u32,
    pub protocol: u8,
    pub scope: WireGuardRouteScope,
}

pub open spec fn scope_for(p: IpPrefix) -> WireGuardRouteScope {
    match p.address {
        IpAddr::V4(_) => WireGuardRouteScope::Link,
        IpAddr::V6(_) => WireGuardRouteScope::Universe,
    }
}

/// The readback of the owned route to `p`.
pub open spec fn readback_for(p: IpPrefix, index: u32, table: u32) -> WireGuardRouteReadback {
    WireGuardRouteReadback {
        prefix: p,
        interface_index: index,
        table,
        protocol: crate::kernel_provider::UNF_WIREGUARD_ROUTE_PROTOCOL,
        scope: scope_for(p),
    }
}

/// Why a route readback is rejected.
pub enum RouteFailure {
    Missing,
    NotOwned,
    Stray,
}

pub const ROUTE_NOT_OWNED_MESSAGE: &'static str = "route key is not exactly UNF-owned";
pub const STRAY_ROUTE_MESSAGE: &'static str = "unexpected route points at the owned WireGuard interface";

/// `e` reports route rejection `f`.
pub open spec fn route_error_of(f: RouteFailure, e: WireGuardKernelError) -> bool {
    match f {
        RouteFailure::Missing => e is ReadbackMismatch,
        RouteFailure::NotOwned => e matches WireGuardKernelError::ForeignState(m) && m@ == ROUTE_NOT_OWNED_MESSAGE@,
        RouteFailure::Stray => e matches WireGuardKernelError::ForeignState(m) && m@ == STRAY_ROUTE_MESSAGE@,
    }
}

/// No route has the key.
pub open spec fn key_absent(ms: Seq<RouteRecord>, p: IpPrefix, t: u32) -> bool {
    forall|j: int| 0 <= j < ms.len() ==> route_key_spec(#[trigger] ms[j]) != Some((p, t))
}

/// Route `i` is the only one with the key.
pub open spec fn key_only_at(ms: Seq<RouteRecord>, p: IpPrefix, t: u32, i: int) -> bool {
    &&& 0 <= i < ms.len()
    &&& route_key_spec(ms[i]) == Some((p, t))
    &&& forall|j: int| 0 <= j < ms.len() && j != i ==> route_key_spec(#[trigger] ms[j]) != Some((p, t))
}

/// The owned route to `p` in table `t`: absent (an error where every route
/// is required), the one exact route with that key, or foreign.
pub open spec fn prefix_route(ms: Seq<RouteRecord>, p: IpPrefix, t: u32, index: u32, complete: bool) -> Result<
    Option<WireGuardRouteReadback>,
    RouteFailure,
> {
    if key_absent(ms, p, t) {
        if complete {
            Err(RouteFailure::Missing)
        } else {
            Ok(None)
        }
    } else if exists|i: int| key_only_at(ms, p, t, i) && route_exact(ms[i], p, index) {
        Ok(Some(readback_for(p, index, t)))
    } else {
        Err(RouteFailure::NotOwned)
    }
}

/// The owned routes of the desired prefixes, in order.
pub open spec fn desired_routes(ms: Seq<RouteRecord>, desired: Seq<IpPrefix>, t: u32, index: u32, complete: bool) -> Result<
    Seq<WireGuardRouteReadback>,
    RouteFailure,
>
    decreases desired.len(),
{
    if desired.len() == 0 {
        Ok(Seq::empty())
    } else {
        match desired_routes(ms, desired.drop_last(), t, index, complete) {
            Err(f) => Err(f),
            Ok(rs) => match prefix_route(ms, desired.last(), t, index, complete) {
                Err(f) => Err(f),
                Ok(Some(r)) => Ok(rs.push(r)),
                Ok(None) => Ok(rs),
            },
        }
    }
}

/// A route through the owned interface that is neither an owned route nor
/// one the kernel adds itself.
pub open spec fn stray_route(m: RouteRecord, desired: Seq<IpPrefix>, t: u32, index: u32, proof_addresses: Seq<IpPrefix>) -> bool {
    &&& first_oif(m.attributes@) == Some(index)
    &&& !kernel_multicast(m)
    &&& !kernel_proof_route(m, proof_addresses, index)
    &&& match route_key_spec(m) {
        Some((p, tt)) => tt != t || !desired.contains(p) || !route_exact(m, p, index),
        None => true,
    }
}

/// What reading back the owned routes answers.
pub open spec fn routes_outcome(
    ms: Seq<RouteRecord>,
    desired: Seq<IpPrefix>,
    t: u32,
    index: u32,
    complete: bool,
    proof_addresses: Seq<IpPrefix>,
) -> Result<Seq<WireGuardRouteReadback>, RouteFailure> {
    match desired_routes(ms, desired, t, index, complete) {
        Err(f) => Err(f),
        Ok(rs) => if exists|k: int| 0 <= k < ms.len() && stray_route(#[trigger] ms[k], desired, t, index, proof_addresses) {
            Err(RouteFailure::Stray)
        } else {
            Ok(rs)
        },
    }
}

/// The owned route to one desired prefix.
fn route_for_prefix(ms: &Vec<RouteRecord>, p: IpPrefix, t: u32, index: u32, complete: bool) -> (r: Result<
    Option<WireGuardRouteReadback>,
    WireGuardKernelError,
>)
    ensures
        match prefix_route(ms@, p, t, index, complete) {
            Ok(x) => r == Ok::<Option<WireGuardRouteReadback>, WireGuardKernelError>(x),
            Err(f) => r matches Err(e) && route_error_of(f, e),
        },
{
    let mut count: usize = 0;
    let mut found: usize = 0;
    let mut i: usize = 0;
    while i < ms.len()
        invariant
            i <= ms@.len(),
            count <= i,
            count == 0 ==> forall|j: int| 0 <= j < i ==> route_key_spec(#[trigger] ms@[j]) != Some((p, t)),
            count == 1 ==> found < i && route_key_spec(ms@[found as int]) == Some((p, t)) && forall|j: int|
                0 <= j < i && j != found ==> route_key_spec(#[trigger] ms@[j]) != Some((p, t)),
            count >= 2 ==> exists|a: int, b: int|
                0 <= a < b < i && route_key_spec(#[trigger] ms@[a]) == Some((p, t)) && route_key_spec(#[trigger] ms@[b])
                    == Some((p, t)),
        decreases ms@.len() - i,
    {
        let k = route_key(&ms[i]);
        let hit = match k {
            Some((q, tt)) => q == p && tt == t,
            None => false,
        };
        if hit {
            if count == 0 {
                found = i;
            }
            if count < 2 {
                count = count + 1;
            }
        }
        i = i + 1;
    }
    proof {
        reveal_strlit("route key is not exactly UNF-owned");
    }
    if count == 0 {
        if complete {
            return Err(WireGuardKernelError::ReadbackMismatch);
        }
        return Ok(None);
    }
    if count == 1 && route_is_exact(&ms[found], p, index) {
        proof {
            assert(key_only_at(ms@, p, t, found as int));
        }
        let scope = crate::kernel_provider::WireGuardRouteScope::for_prefix(p);
        return Ok(
            Some(
                WireGuardRouteReadback {
                    prefix: p,
                    interface_index: index,
                    table: t,
                    protocol: crate::kernel_provider::UNF_WIREGUARD_ROUTE_PROTOCOL,
                    scope,
                },
            ),
        );
    }
    proof {
        assert(!key_absent(ms@, p, t));
        if exists|x: int| key_only_at(ms@, p, t, x) && route_exact(ms@[x], p, index) {
            let x = choose|x: int| key_only_at(ms@, p, t, x) && route_exact(ms@[x], p, index);
            if count >= 2 {
                let (a, b) = choose|a: int, b: int|
                    0 <= a < b < i && route_key_spec(#[trigger] ms@[a]) == Some((p, t)) && route_key_spec(#[trigger] ms@[b])
                        == Some((p, t));
                assert(a == x || b == x);
            } else {
                assert(x == found);
            }
        }
    }
    Err(WireGuardKernelError::ForeignState(String::from_str(ROUTE_NOT_OWNED_MESSAGE)))
}

proof fn lemma_desired_stop(ms: Seq<RouteRecord>, desired: Seq<IpPrefix>, t: u32, index: u32, complete: bool, k: int)
    requires
        0 < k <= desired.len(),
        desired_routes(ms, desired.take(k), t, index, complete) is Err,
    ensures
        desired_routes(ms, desired, t, index, complete) == desired_routes(ms, desired.take(k), t, index, complete),
    decreases desired.len() - k,
{
    if k < desired.len() {
        assert(desired.take(k + 1).drop_last() =~= desired.take(k));
        lemma_desired_stop(ms, desired, t, index, complete, k + 1);
    } else {
        assert(desired.take(k) =~= desired);
    }
}

fn is_stray_route(m: &RouteRecord, desired: &Vec<IpPrefix>, t: u32, index: u32, proof_addresses: &Vec<IpPrefix>) -> (r: bool)
    ensures
        r == stray_route(*m, desired@, t, index, proof_addresses@),
{
    if route_oif(m) != Some(index) || is_kernel_generated_wireguard_multicast(m) || is_kernel_generated_proof_address_route(
        m,
        proof_addresses,
        index,
    ) {
        return false;
    }
    match route_key(m) {
        Some((p, tt)) => tt != t || !prefix_listed(desired, p) || !route_is_exact(m, p, index),
        None => true,
    }
}

/// Reads back the owned routes from every reported route: one exact owned
/// route per desired prefix (each one required where `require_complete`),
/// and no other route through the owned interface but those the kernel adds
/// itself.
pub fn owned_routes(
    messages: &Vec<RouteRecord>,
    desired: &Vec<IpPrefix>,
    table: u32,
    index: u32,
    require_complete: bool,
    proof_addresses: &Vec<IpPrefix>,
) -> (r: Result<Vec<WireGuardRouteReadback>, WireGuardKernelError>)
    ensures
        match routes_outcome(messages@, desired@, table, index, require_complete, proof_addresses@) {
            Ok(rs) => r matches Ok(v) && v@ == rs,
            Err(f) => r matches Err(e) && route_error_of(f, e),
        },
{
    let mut routes: Vec<WireGuardRouteReadback> = Vec::new();
    let mut i: usize = 0;
    assert(desired@.take(0) =~= Seq::<IpPrefix>::empty());
    while i < desired.len()
        invariant
            i <= desired@.len(),
            desired_routes(messages@, desired@.take(i as int), table, index, require_complete) == Ok::<
                Seq<WireGuardRouteReadback>,
                RouteFailure,
            >(routes@),
        decreases desired@.len() - i,
    {
        proof {
            assert(desired@.take(i + 1).drop_last() =~= desired@.take(i as int));
            assert(desired@.take(i + 1).last() == desired@[i as int]);
        }
        match route_for_prefix(messages, desired[i], table, index, require_complete) {
            Ok(Some(x)) => {
                routes.push(x);
            },
            Ok(None) => {},
            Err(e) => {
                proof {
                    lemma_desired_stop(messages@, desired@, table, index, require_complete, i as int + 1);
                }
                return Err(e);
            },
        }
        i = i + 1;
    }
    assert(desired@.take(i as int) =~= desired@);
    let mut k: usize = 0;
    while k < messages.len()
        invariant
            k <= messages@.len(),
            forall|j: int| 0 <= j < k ==> !stray_route(#[trigger] messages@[j], desired@, table, index, proof_addresses@),
            desired_routes(messages@, desired@, table, index, require_complete) == Ok::<
                Seq<WireGuardRouteReadback>,
                RouteFailure,
            >(routes@),
        decreases messages@.len() - k,
    {
        if is_stray_route(&messages[k], desired, table, index, proof_addresses) {
            assert(stray_route(messages@[k as int], desired@, table, index, proof_addresses@));
            return Err(WireGuardKernelError::ForeignState(String::from_str(STRAY_ROUTE_MESSAGE)));
        }
        k = k + 1;
    }
    Ok(routes)
}

/// One attribute of a reported interface address.
#[derive(Clone, Copy, Debug)]
pub enum AddressAttribute {
    Local(IpAddr),
    Address(IpAddr),
    Other,
}

/// A reported interface address: its prefix length and attributes.
#[derive(Clone, Debug)]
pub struct AddressRecord {
    pub prefix_len: u8,
    pub attributes: Vec<AddressAttribute>,
}

pub const UNEXPECTED_PROOF_ADDRESSES_MESSAGE: &'static str = "owned WireGuard interface has unexpected proof addresses";

/// The first local or interface address among the attributes.
pub open spec fn first_address(v: Seq<AddressAttribute>) -> Option<IpAddr>
    decreases v.len(),
{
    if v.len() == 0 {
        None
    } else {
        match v[0] {
            AddressAttribute::Local(a) => Some(a),
            AddressAttribute::Address(a) => Some(a),
            AddressAttribute::Other => first_address(v.drop_first()),
        }
    }
}

/// The prefixes that the reported addresses carry, in order.
pub open spec fn found_addresses(ms: Seq<AddressRecord>) -> Seq<IpPrefix>
    decreases ms.len(),
{
    if ms.len() == 0 {
        Seq::empty()
    } else {
        match first_address(ms.last().attributes@) {
            Some(a) => found_addresses(ms.drop_last()).push(IpPrefix { address: a, prefix_len: ms.last().prefix_len }),
            None => found_addresses(ms.drop_last()),
        }
    }
}

fn first_address_of(v: &Vec<AddressAttribute>) -> (r: Option<IpAddr>)
    ensures
        r == first_address(v@),
{
    let mut i: usize = 0;
    assert(v@.skip(0) =~= v@);
    while i < v.len()
        invariant
            i <= v@.len(),
            first_address(v@) == first_address(v@.skip(i as int)),
        decreases v@.len() - i,
    {
        assert(v@.skip(i as int)[0] == v@[i as int]);
        match v[i] {
            AddressAttribute::Local(a) => {
                return Some(a);
            },
            AddressAttribute::Address(a) => {
                return Some(a);
            },
            AddressAttribute::Other => {},
        }
        assert(v@.skip(i as int).drop_first() =~= v@.skip(i + 1));
        i = i + 1;
    }
    None
}

proof fn lemma_found_addresses_grow(ms: Seq<AddressRecord>, k: int)
    requires
        0 <= k <= ms.len(),
    ensures
        found_addresses(ms.take(k)).len() <= found_addresses(ms).len(),
    decreases ms.len() - k,
{
    if k < ms.len() {
        assert(ms.take(k + 1).drop_last() =~= ms.take(k));
        lemma_found_addresses_grow(ms, k + 1);
    } else {
        assert(ms.take(k) =~= ms);
    }
}

/// Prefixes with equal keys are equal.
proof fn lemma_prefix_key_eq(a: IpPrefix, b: IpPrefix)
    requires
        crate::sorting::key_eq(a, b),
    ensures
        a == b,
{
}

/// Two strictly sorted prefix lists with the same elements are equal.
proof fn lemma_sorted_prefix_sets(a: Seq<IpPrefix>, b: Seq<IpPrefix>)
    requires
        crate::sorting::strictly_sorted_by_key(a),
        crate::sorting::strictly_sorted_by_key(b),
        a.to_set() == b.to_set(),
    ensures
        a == b,
{
    assert forall|i: int| 0 <= i < a.len() implies crate::sorting::key_found_in(#[trigger] a[i], b) by {
        assert(a.to_set().contains(a[i]));
        assert(b.to_set().contains(a[i]));
        let j = choose|j: int| 0 <= j < b.len() && b[j] == a[i];
        IpPrefix::lemma_key_order(a[i], a[i], a[i]);
        assert(crate::sorting::key_eq(a[i], b[j]));
    }
    assert forall|j: int| 0 <= j < b.len() implies crate::sorting::key_found_in(#[trigger] b[j], a) by {
        assert(b.to_set().contains(b[j]));
        assert(a.to_set().contains(b[j]));
        let i = choose|i: int| 0 <= i < a.len() && a[i] == b[j];
        IpPrefix::lemma_key_order(b[j], b[j], b[j]);
        assert(crate::sorting::key_eq(b[j], a[i]));
    }
    crate::sorting::lemma_sorted_keys_align(a, b);
    assert forall|i: int| 0 <= i < a.len() implies a[i] == b[i] by {
        lemma_prefix_key_eq(a[i], b[i]);
    }
    assert(a =~= b);
}

/// Sorts prefixes and drops repeats.
fn sorted_distinct(v: Vec<IpPrefix>) -> (r: Vec<IpPrefix>)
    ensures
        crate::sorting::strictly_sorted_by_key(r@),
        r@.to_set() == v@.to_set(),
{
    let ghost input = v@;
    let sorted = crate::sorting::sort_by_key(v);
    proof {
        assert forall|x: IpPrefix| sorted@.contains(x) <==> input.contains(x) by {
            vstd::seq_lib::to_multiset_contains(sorted@, x);
            vstd::seq_lib::to_multiset_contains(input, x);
        }
    }
    let mut out: Vec<IpPrefix> = Vec::new();
    let mut i: usize = 0;
    while i < sorted.len()
        invariant
            i <= sorted@.len(),
            crate::sorting::sorted_by_key(sorted@),
            crate::sorting::strictly_sorted_by_key(out@),
            out@.to_set() == sorted@.take(i as int).to_set(),
            i > 0 ==> out@.len() > 0 && out@.last() == sorted@[i - 1],
            i == 0 ==> out@.len() == 0,
        decreases sorted@.len() - i,
    {
        let x = sorted[i];
        let repeat = out.len() > 0 && out[out.len() - 1] == x;
        let ghost before = out@;
        proof {
            assert(sorted@.take(i + 1) =~= sorted@.take(i as int).push(x));
            sorted@.take(i as int).lemma_push_to_set_commute(x);
            before.lemma_push_to_set_commute(x);
            if repeat {
                assert(before.to_set().contains(x)) by {
                    assert(before[before.len() - 1] == x);
                }
            }
        }
        if !repeat {
            proof {
                if out@.len() > 0 {
                    let last = out@.last();
                    assert(last == sorted@[i - 1]);
                    assert(!x.key_lt(last));
                    if crate::sorting::key_eq(last, x) {
                        lemma_prefix_key_eq(last, x);
                    }
                    assert(last.key_lt(x));
                    assert forall|a: int, b: int| 0 <= a < b < out@.len() + 1 implies (#[trigger] out@.push(x)[a]).key_lt(
                        #[trigger] out@.push(x)[b],
                    ) by {
                        if b == out@.len() && a < out@.len() - 1 {
                            IpPrefix::lemma_key_order(out@[a], last, x);
                        }
                    }
                }
            }
            out.push(x);
        }
        proof {
            assert(out@.to_set() =~= sorted@.take(i + 1).to_set());
        }
        i = i + 1;
    }
    assert(sorted@.take(i as int) =~= sorted@);
    assert(out@.to_set() =~= input.to_set());
    out
}

/// Reads back the proof addresses on the owned interface: at most the Node
/// prefix bound, and, ordered without repeats, exactly the expected ones.
pub fn owned_proof_addresses(messages: &Vec<AddressRecord>, expected: &Vec<IpPrefix>) -> (r: Result<
    Vec<IpPrefix>,
    WireGuardKernelError,
>)
    ensures
        found_addresses(messages@).len() > crate::model::MAX_ENCRYPTION_PREFIXES_PER_NODE ==> (r matches Err(e)
            && e is CapacityExceeded),
        found_addresses(messages@).len() <= crate::model::MAX_ENCRYPTION_PREFIXES_PER_NODE ==> if crate::sorting::strictly_sorted_by_key(
            expected@,
        ) && expected@.to_set() == found_addresses(messages@).to_set() {
            r matches Ok(v) && v@ == expected@
        } else {
            r matches Err(WireGuardKernelError::ForeignState(m)) && m@ == UNEXPECTED_PROOF_ADDRESSES_MESSAGE@
        },
{
    let mut observed: Vec<IpPrefix> = Vec::new();
    let mut i: usize = 0;
    while i < messages.len()
        invariant
            i <= messages@.len(),
            observed@ == found_addresses(messages@.take(i as int)),
            observed@.len() <= crate::model::MAX_ENCRYPTION_PREFIXES_PER_NODE,
        decreases messages@.len() - i,
    {
        proof {
            assert(messages@.take(i + 1).drop_last() =~= messages@.take(i as int));
            assert(messages@.take(i + 1).last() == messages@[i as int]);
        }
        match first_address_of(&messages[i].attributes) {
            Some(a) => {
                observed.push(IpPrefix { address: a, prefix_len: messages[i].prefix_len });
            },
            None => {},
        }
        if observed.len() > crate::model::MAX_ENCRYPTION_PREFIXES_PER_NODE {
            proof {
                lemma_found_addresses_grow(messages@, i + 1);
            }
            return Err(WireGuardKernelError::CapacityExceeded);
        }
        i = i + 1;
    }
    assert(messages@.take(i as int) =~= messages@);
    let distinct = sorted_distinct(observed);
    if !prefix_lists_equal(&distinct, expected) {
        proof {
            if crate::sorting::strictly_sorted_by_key(expected@) && expected@.to_set() == found_addresses(messages@).to_set() {
                lemma_sorted_prefix_sets(distinct@, expected@);
            }
        }
        return Err(WireGuardKernelError::ForeignState(String::from_str(UNEXPECTED_PROOF_ADDRESSES_MESSAGE)));
    }
    Ok(distinct)
}

} // verus!
