//! The cluster encryption model: a baseline and prioritized intents that can
//! only add Required encryption for selected identity pairs.

use vstd::prelude::*;
use vstd::utf8::encode_utf8;
use vstd::multiset::Multiset;
use crate::ids::IdentityId;
use crate::text::{
    bounded_text, compare_text, is_bounded_text, is_trimmed, is_trimmed_text, lemma_text_lt_asymmetric,
    lemma_text_lt_transitive, lemma_text_order_antisymmetric, lemma_text_order_eq, lemma_text_total,
    text_eq, text_lt,
};

verus! {

pub const ENCRYPTION_MODEL_SCHEMA_VERSION: u16 = 1;
pub const ATTESTED_ENCRYPTION_PATH_CONTRACT_SCHEMA_VERSION: u16 = 1;
pub const MAX_ENCRYPTION_INTENTS: usize = 4096;
pub const MAX_ENCRYPTION_IDENTITIES_PER_SELECTOR: usize = 4096;
pub const MAX_ENCRYPTION_ENDPOINTS: usize = 4096;
pub const MAX_ENCRYPTION_PATHS: usize = 65536;
pub const MAX_ENCRYPTION_PREFIXES_PER_NODE: usize = 256;
pub const MAX_ENCRYPTION_UNDERLAY_ADDRESSES_PER_NODE: usize = 16;
pub const MAX_ENCRYPTION_FAILURE_OBSERVATIONS: usize = 4096;
pub const MAX_ENCRYPTION_NAME_BYTES: usize = 253;
pub const MAX_WIREGUARD_INTERFACE_NAME_BYTES: usize = 15;
pub const MIN_DUAL_STACK_ENCRYPTION_MTU: u32 = 1280;
pub const MAX_ENCRYPTION_MTU: u32 = 9216;

/// Nonempty, at most 253 bytes, free of surrounding white space and of
/// control characters.
pub open spec fn model_text(s: Seq<char>) -> bool {
    bounded_text(s, MAX_ENCRYPTION_NAME_BYTES as nat) && is_trimmed(s)
}

pub fn validate_text(value: &str) -> (r: bool)
    ensures
        r == model_text(value@),
{
    is_bounded_text(value, MAX_ENCRYPTION_NAME_BYTES) && is_trimmed_text(value)
}

pub open spec fn interface_byte(b: u8) -> bool {
    (0x30 <= b <= 0x39) || (0x41 <= b <= 0x5a) || (0x61 <= b <= 0x7a) || b == 0x5f || b == 0x2d
}

/// Nonempty, at most 15 bytes, of ASCII letters, digits, `_` and `-`.
pub open spec fn interface_name_ok(bytes: Seq<u8>) -> bool {
    &&& bytes.len() > 0
    &&& bytes.len() <= MAX_WIREGUARD_INTERFACE_NAME_BYTES
    &&& forall|i: int| 0 <= i < bytes.len() ==> interface_byte(#[trigger] bytes[i])
}

pub fn valid_interface_name(value: &str) -> (r: bool)
    ensures
        r == interface_name_ok(encode_utf8(value@)),
{
    let bytes = value.as_bytes();
    if bytes.len() == 0 || bytes.len() > MAX_WIREGUARD_INTERFACE_NAME_BYTES {
        return false;
    }
    let mut i: usize = 0;
    while i < bytes.len()
        invariant
            bytes@ == encode_utf8(value@),
            0 < bytes@.len() <= MAX_WIREGUARD_INTERFACE_NAME_BYTES,
            i <= bytes@.len(),
            forall|j: int| 0 <= j < i ==> interface_byte(#[trigger] bytes@[j]),
        decreases bytes@.len() - i,
    {
        let b = bytes[i];
        if !((0x30 <= b && b <= 0x39) || (0x41 <= b && b <= 0x5a) || (0x61 <= b && b <= 0x7a) || b
            == 0x5f || b == 0x2d) {
            return false;
        }
        i = i + 1;
    }
    true
}

#[derive(Clone, Copy, Debug, PartialEq, Eq, Structural)]
pub enum EncryptionBaseline {
    Native,
    Required,
}

#[derive(Clone, Copy, Debug, PartialEq, Eq, Structural)]
pub enum EncryptionDisposition {
    Native,
    Required,
}

#[derive(Debug)]
pub enum EncryptionModelError {
    UnsupportedSchema { actual: u16, expected: u16 },
    InvalidText { field: &'static str },
    TooManyIntents { actual: usize, limit: usize },
    TooManySelectorIdentities { actual: usize, limit: usize },
    EmptyIdentitySelector,
    ZeroIdentity,
    DuplicateIntentName(String),
    DuplicateIntentUid(String),
    NotNormalized,
}

/// Which managed identities an intent selects.
#[derive(Clone, Debug)]
pub enum ManagedIdentitySelector {
    AllManaged,
    /// The selected identities, as a set.
    Identities(Vec<IdentityId>),
}

pub open spec fn identity_values(v: Seq<IdentityId>) -> Set<u32> {
    v.map_values(|x: IdentityId| x.0).to_set()
}

pub open spec fn selector_selects(s: ManagedIdentitySelector, identity: IdentityId) -> bool {
    match s {
        ManagedIdentitySelector::AllManaged => true,
        ManagedIdentitySelector::Identities(v) => identity_values(v@).contains(identity.0),
    }
}

/// The error that validating selector `s` reports, if any.
pub open spec fn selector_error(s: ManagedIdentitySelector) -> Option<EncryptionModelError> {
    match s {
        ManagedIdentitySelector::AllManaged => None,
        ManagedIdentitySelector::Identities(v) => {
            if v@.len() == 0 {
                Some(EncryptionModelError::EmptyIdentitySelector)
            } else if identity_values(v@).len() > MAX_ENCRYPTION_IDENTITIES_PER_SELECTOR {
                Some(
                    EncryptionModelError::TooManySelectorIdentities {
                        actual: identity_values(v@).len() as usize,
                        limit: MAX_ENCRYPTION_IDENTITIES_PER_SELECTOR,
                    },
                )
            } else if identity_values(v@).contains(0) {
                Some(EncryptionModelError::ZeroIdentity)
            } else {
                None
            }
        },
    }
}

/// Inserts `x` into a strictly increasing list unless it is already there.
fn insert_u32_sorted(v: &mut Vec<u32>, x: u32)
    requires
        forall|a: int, b: int| 0 <= a < b < old(v)@.len() ==> old(v)@[a] < old(v)@[b],
    ensures
        forall|a: int, b: int| 0 <= a < b < final(v)@.len() ==> final(v)@[a] < final(v)@[b],
        final(v)@.to_set() == old(v)@.to_set().insert(x),
{
    let n = v.len();
    let mut p: usize = 0;
    while p < n && v[p] < x
        invariant
            n == v@.len(),
            p <= n,
            v@ == old(v)@,
            forall|j: int| 0 <= j < p ==> v@[j] < x,
        decreases n - p,
    {
        p = p + 1;
    }
    if p < n && v[p] == x {
        assert(v@.to_set().insert(x) =~= v@.to_set());
        return;
    }
    let ghost o = v@;
    v.insert(p, x);
    proof {
        assert(v@ == o.insert(p as int, x));
        assert forall|y: u32| v@.to_set().contains(y) <==> o.to_set().insert(x).contains(y) by {
            if y == x {
                assert(v@[p as int] == x);
            }
            if v@.to_set().contains(y) {
                let j = choose|j: int| 0 <= j < v@.len() && v@[j] == y;
                if j < p {
                    assert(o[j] == y);
                } else if j > p {
                    assert(o[j - 1] == y);
                }
            }
            if o.to_set().contains(y) {
                let j = choose|j: int| 0 <= j < o.len() && o[j] == y;
                if j < p {
                    assert(v@[j] == y);
                } else {
                    assert(v@[j + 1] == y);
                }
            }
        }
        assert(v@.to_set() =~= o.to_set().insert(x));
    }
}

/// The number of distinct identities in `v`.
fn distinct_identities(v: &Vec<IdentityId>) -> (r: usize)
    ensures
        r == identity_values(v@).len(),
{
    let mut set: Vec<u32> = Vec::new();
    let mut i: usize = 0;
    while i < v.len()
        invariant
            i <= v@.len(),
            forall|a: int, b: int| 0 <= a < b < set@.len() ==> set@[a] < set@[b],
            set@.to_set() == v@.take(i as int).map_values(|x: IdentityId| x.0).to_set(),
        decreases v@.len() - i,
    {
        insert_u32_sorted(&mut set, v[i].0);
        proof {
            assert(v@.take(i + 1).map_values(|x: IdentityId| x.0) =~= v@.take(i as int).map_values(
                |x: IdentityId| x.0,
            ).push(v@[i as int].0));
            v@.take(i as int).map_values(|x: IdentityId| x.0).lemma_push_to_set_commute(v@[i as int].0);
        }
        i = i + 1;
    }
    proof {
        assert(v@.take(i as int) =~= v@);
        assert(set@.no_duplicates()) by {
            assert forall|a: int, b: int| 0 <= a < set@.len() && 0 <= b < set@.len() && a != b implies set@[a] != set@[b] by {
                if a < b {
                    assert(set@[a] < set@[b]);
                } else {
                    assert(set@[b] < set@[a]);
                }
            }
        }
        set@.unique_seq_to_set();
    }
    set.len()
}

fn contains_identity_value(v: &Vec<IdentityId>, x: u32) -> (r: bool)
    ensures
        r == identity_values(v@).contains(x),
{
    let mut i: usize = 0;
    while i < v.len()
        invariant
            i <= v@.len(),
            forall|j: int| 0 <= j < i ==> (#[trigger] v@[j]).0 != x,
        decreases v@.len() - i,
    {
        if v[i].0 == x {
            proof {
                assert(v@.map_values(|y: IdentityId| y.0)[i as int] == x);
            }
            return true;
        }
        i = i + 1;
    }
    proof {
        let w = v@.map_values(|y: IdentityId| y.0);
        if w.to_set().contains(x) {
            let j = choose|j: int| 0 <= j < w.len() && w[j] == x;
            assert(w[j] == v@[j].0);
        }
    }
    false
}

impl ManagedIdentitySelector {
    pub fn selects(&self, identity: IdentityId) -> (r: bool)
        ensures
            r == selector_selects(*self, identity),
    {
        match self {
            ManagedIdentitySelector::AllManaged => true,
            ManagedIdentitySelector::Identities(v) => contains_identity_value(v, identity.0),
        }
    }

    pub fn validate(&self) -> (r: Result<(), EncryptionModelError>)
        ensures
            match selector_error(*self) {
                Some(e) => r == Err::<(), EncryptionModelError>(e),
                None => r is Ok,
            },
    {
        match self {
            ManagedIdentitySelector::AllManaged => Ok(()),
            ManagedIdentitySelector::Identities(v) => {
                if v.len() == 0 {
                    return Err(EncryptionModelError::EmptyIdentitySelector);
                }
                let count = distinct_identities(v);
                if count > MAX_ENCRYPTION_IDENTITIES_PER_SELECTOR {
                    return Err(
                        EncryptionModelError::TooManySelectorIdentities {
                            actual: count,
                            limit: MAX_ENCRYPTION_IDENTITIES_PER_SELECTOR,
                        },
                    );
                }
                if contains_identity_value(v, 0) {
                    return Err(EncryptionModelError::ZeroIdentity);
                }
                Ok(())
            },
        }
    }
}

} // verus!

verus! {

/// A named, prioritized rule that requires encryption between the selected
/// source and destination identities.
#[derive(Clone, Debug)]
pub struct EncryptionIntent {
    pub name: String,
    pub uid: String,
    pub priority: u32,
    pub sources: ManagedIdentitySelector,
    pub destinations: ManagedIdentitySelector,
}

/// A validated model: intents strictly ordered by priority, name, and UID.
#[derive(Clone, Debug)]
pub struct EncryptionModel {
    pub schema_version: u16,
    pub cluster_id: String,
    pub baseline: EncryptionBaseline,
    pub intents: Vec<EncryptionIntent>,
}

#[derive(Clone, Debug)]
pub struct EncryptionRequirementDecision {
    pub disposition: EncryptionDisposition,
    pub intent_uids: Vec<String>,
}

pub open spec fn intent_names(v: Seq<EncryptionIntent>) -> Seq<Seq<char>> {
    v.map_values(|i: EncryptionIntent| i.name@)
}

pub open spec fn intent_uids(v: Seq<EncryptionIntent>) -> Seq<Seq<char>> {
    v.map_values(|i: EncryptionIntent| i.uid@)
}

/// The error that intent `x` raises after the intents `before` were accepted.
pub open spec fn intent_error(before: Seq<EncryptionIntent>, x: EncryptionIntent) -> Option<
    EncryptionModelError,
> {
    if !model_text(x.name@) {
        Some(EncryptionModelError::InvalidText { field: "intent.name" })
    } else if !model_text(x.uid@) {
        Some(EncryptionModelError::InvalidText { field: "intent.uid" })
    } else if intent_names(before).contains(x.name@) {
        Some(EncryptionModelError::DuplicateIntentName(x.name))
    } else if intent_uids(before).contains(x.uid@) {
        Some(EncryptionModelError::DuplicateIntentUid(x.uid))
    } else if selector_error(x.sources) is Some {
        selector_error(x.sources)
    } else {
        selector_error(x.destinations)
    }
}

/// The first error raised while checking intents in order.
pub open spec fn first_intent_error(v: Seq<EncryptionIntent>) -> Option<EncryptionModelError>
    decreases v.len(),
{
    if v.len() == 0 {
        None
    } else {
        match first_intent_error(v.drop_last()) {
            Some(e) => Some(e),
            None => intent_error(v.drop_last(), v.last()),
        }
    }
}

/// The error that normalizing a model from these inputs reports, if any.
pub open spec fn model_error(cluster_id: Seq<char>, intents: Seq<EncryptionIntent>) -> Option<
    EncryptionModelError,
> {
    if !model_text(cluster_id) {
        Some(EncryptionModelError::InvalidText { field: "cluster_id" })
    } else if intents.len() > MAX_ENCRYPTION_INTENTS {
        Some(
            EncryptionModelError::TooManyIntents {
                actual: intents.len() as usize,
                limit: MAX_ENCRYPTION_INTENTS,
            },
        )
    } else {
        first_intent_error(intents)
    }
}

/// Order by priority, then name, then UID.
pub open spec fn intent_key_lt(a: EncryptionIntent, b: EncryptionIntent) -> bool {
    a.priority < b.priority || (a.priority == b.priority && crate::recipients::pair_lt(
        (a.name@, a.uid@),
        (b.name@, b.uid@),
    ))
}

pub open spec fn intents_sorted(v: Seq<EncryptionIntent>) -> bool {
    forall|a: int, b: int| 0 <= a < b < v.len() ==> intent_key_lt(#[trigger] v[a], #[trigger] v[b])
}

pub(crate) proof fn lemma_intent_key_lt_transitive(a: EncryptionIntent, b: EncryptionIntent, c: EncryptionIntent)
    requires
        intent_key_lt(a, b),
        intent_key_lt(b, c),
    ensures
        intent_key_lt(a, c),
{
    if a.priority == b.priority && b.priority == c.priority {
        crate::recipients::lemma_pair_lt_transitive((a.name@, a.uid@), (b.name@, b.uid@), (c.name@, c.uid@));
    }
}

pub(crate) proof fn lemma_intent_key_lt_asymmetric(a: EncryptionIntent, b: EncryptionIntent)
    requires
        intent_key_lt(a, b),
    ensures
        !intent_key_lt(b, a),
{
    if a.priority == b.priority {
        crate::recipients::lemma_pair_lt_asymmetric((a.name@, a.uid@), (b.name@, b.uid@));
    }
}

/// Intents whose checks all pass have pairwise distinct names.
proof fn lemma_no_error_distinct_names(v: Seq<EncryptionIntent>)
    requires
        first_intent_error(v) is None,
    ensures
        forall|i: int, j: int| 0 <= i < j < v.len() ==> (#[trigger] v[i]).name@ != (#[trigger] v[j]).name@,
    decreases v.len(),
{
    if v.len() > 0 {
        let w = v.drop_last();
        lemma_no_error_distinct_names(w);
        assert forall|i: int, j: int| 0 <= i < j < v.len() implies (#[trigger] v[i]).name@ != (
        #[trigger] v[j]).name@ by {
            if j == v.len() - 1 {
                assert(intent_names(w)[i] == w[i].name@);
                assert(w[i] == v[i]);
            } else {
                assert(w[i] == v[i]);
                assert(w[j] == v[j]);
            }
        }
    }
}

/// Inserts `x` at its place in a list strictly ordered by intent key.
fn insert_intent_sorted(v: &mut Vec<EncryptionIntent>, x: EncryptionIntent)
    requires
        intents_sorted(old(v)@),
        forall|i: int| 0 <= i < old(v)@.len() ==> (#[trigger] old(v)@[i]).name@ != x.name@,
    ensures
        intents_sorted(final(v)@),
        exists|p: int| 0 <= p <= old(v)@.len() && final(v)@ == old(v)@.insert(p, x),
{
    let n = v.len();
    let mut p: usize = 0;
    while p < n && intent_less(&v[p], &x)
        invariant
            n == v@.len(),
            p <= n,
            v@ == old(v)@,
            forall|j: int| 0 <= j < p ==> intent_key_lt(#[trigger] v@[j], x),
        decreases n - p,
    {
        p = p + 1;
    }
    let ghost o = v@;
    proof {
        if p < n {
            crate::recipients::lemma_pair_total((o[p as int].name@, o[p as int].uid@), (x.name@, x.uid@));
            assert(intent_key_lt(x, o[p as int]));
        }
        assert forall|j: int| p <= j < n implies intent_key_lt(x, #[trigger] o[j]) by {
            if j > p {
                lemma_intent_key_lt_transitive(x, o[p as int], o[j]);
            }
        }
    }
    v.insert(p, x);
    proof {
        assert(v@ == o.insert(p as int, x));
        assert forall|a: int, b: int| 0 <= a < b < v@.len() implies intent_key_lt(
            #[trigger] v@[a],
            #[trigger] v@[b],
        ) by {
            if a < p && b > p {
                lemma_intent_key_lt_transitive(v@[a], x, v@[b]);
            }
        }
    }
}

fn intent_less(a: &EncryptionIntent, b: &EncryptionIntent) -> (r: bool)
    ensures
        r == intent_key_lt(*a, *b),
{
    if a.priority != b.priority {
        return a.priority < b.priority;
    }
    let x = crate::recipients::EncryptionGenerationRecipient {
        node_name: a.name.clone(),
        node_uid: a.uid.clone(),
    };
    let y = crate::recipients::EncryptionGenerationRecipient {
        node_name: b.name.clone(),
        node_uid: b.uid.clone(),
    };
    crate::recipients::recipient_lt(&x, &y)
}

fn contains_name(v: &Vec<EncryptionIntent>, k: usize, s: &str, by_name: bool) -> (r: bool)
    requires
        k <= v@.len(),
    ensures
        by_name ==> r == intent_names(v@.take(k as int)).contains(s@),
        !by_name ==> r == intent_uids(v@.take(k as int)).contains(s@),
{
    let mut i: usize = 0;
    while i < k
        invariant
            k <= v@.len(),
            i <= k,
            by_name ==> forall|j: int| 0 <= j < i ==> (#[trigger] v@[j]).name@ != s@,
            !by_name ==> forall|j: int| 0 <= j < i ==> (#[trigger] v@[j]).uid@ != s@,
        decreases k - i,
    {
        let hit = if by_name {
            text_eq(v[i].name.as_str(), s)
        } else {
            text_eq(v[i].uid.as_str(), s)
        };
        if hit {
            proof {
                assert(intent_names(v@.take(k as int))[i as int] == v@[i as int].name@);
                assert(intent_uids(v@.take(k as int))[i as int] == v@[i as int].uid@);
            }
            return true;
        }
        i = i + 1;
    }
    proof {
        let ns = intent_names(v@.take(k as int));
        let us = intent_uids(v@.take(k as int));
        if by_name && ns.contains(s@) {
            let j = choose|j: int| 0 <= j < ns.len() && ns[j] == s@;
            assert(ns[j] == v@[j].name@);
        }
        if !by_name && us.contains(s@) {
            let j = choose|j: int| 0 <= j < us.len() && us[j] == s@;
            assert(us[j] == v@[j].uid@);
        }
    }
    false
}

proof fn lemma_first_error_prefix(v: Seq<EncryptionIntent>, k: int)
    requires
        0 <= k <= v.len(),
        first_intent_error(v.take(k)) is Some,
    ensures
        first_intent_error(v) == first_intent_error(v.take(k)),
    decreases v.len() - k,
{
    if k == v.len() {
        assert(v.take(k) =~= v);
    } else {
        let w = v.drop_last();
        assert(w.take(k) =~= v.take(k));
        lemma_first_error_prefix(w, k);
    }
}

/// Checks intents in order, reporting the first error.
fn check_intents(v: &Vec<EncryptionIntent>) -> (r: Result<(), EncryptionModelError>)
    ensures
        match first_intent_error(v@) {
            Some(e) => r == Err::<(), EncryptionModelError>(e),
            None => r is Ok,
        },
{
    let mut i: usize = 0;
    while i < v.len()
        invariant
            i <= v@.len(),
            first_intent_error(v@.take(i as int)) is None,
        decreases v@.len() - i,
    {
        let x = &v[i];
        proof {
            assert(v@.take(i + 1).drop_last() =~= v@.take(i as int));
            assert(v@.take(i + 1).last() == v@[i as int]);
        }
        let checked: Result<(), EncryptionModelError> = if !validate_text(x.name.as_str()) {
            Err(EncryptionModelError::InvalidText { field: "intent.name" })
        } else if !validate_text(x.uid.as_str()) {
            Err(EncryptionModelError::InvalidText { field: "intent.uid" })
        } else if contains_name(v, i, x.name.as_str(), true) {
            Err(EncryptionModelError::DuplicateIntentName(x.name.clone()))
        } else if contains_name(v, i, x.uid.as_str(), false) {
            Err(EncryptionModelError::DuplicateIntentUid(x.uid.clone()))
        } else {
            match x.sources.validate() {
                Err(e) => Err(e),
                Ok(()) => x.destinations.validate(),
            }
        };
        match checked {
            Err(e) => {
                proof {
                    lemma_first_error_prefix(v@, i + 1);
                }
                return Err(e);
            },
            Ok(()) => {},
        }
        i = i + 1;
    }
    assert(v@.take(i as int) =~= v@);
    Ok(())
}

} // verus!

verus! {

/// The UIDs of the intents that select the pair, in intent order.
pub open spec fn selected_uids(
    v: Seq<EncryptionIntent>,
    source: IdentityId,
    destination: IdentityId,
) -> Seq<Seq<char>>
    decreases v.len(),
{
    if v.len() == 0 {
        Seq::empty()
    } else {
        let rest = selected_uids(v.drop_last(), source, destination);
        if selector_selects(v.last().sources, source) && selector_selects(
            v.last().destinations,
            destination,
        ) {
            rest.push(v.last().uid@)
        } else {
            rest
        }
    }
}

/// An intent's UID is selected for a pair exactly when its source selector
/// selects the source and its destination selector selects the destination;
/// the selected UIDs are those UIDs, each in intent order, and nothing is
/// selected when no intent selects the pair.
pub proof fn lemma_selected_uids_exact(v: Seq<EncryptionIntent>, source: IdentityId, destination: IdentityId)
    ensures
        selected_uids(v, source, destination).len() <= v.len(),
        forall|x: Seq<char>|
            selected_uids(v, source, destination).contains(x) <==> exists|k: int|
                0 <= k < v.len() && (#[trigger] v[k]).uid@ == x && selector_selects(v[k].sources, source)
                    && selector_selects(v[k].destinations, destination),
        selected_uids(v, source, destination).len() == 0 <==> !exists|k: int|
            0 <= k < v.len() && selector_selects((#[trigger] v[k]).sources, source) && selector_selects(
                v[k].destinations,
                destination,
            ),
    decreases v.len(),
{
    if v.len() > 0 {
        let w = v.drop_last();
        lemma_selected_uids_exact(w, source, destination);
        let sw = selected_uids(w, source, destination);
        let sv = selected_uids(v, source, destination);
        assert forall|k: int| 0 <= k < w.len() implies #[trigger] w[k] == v[k] by {}
        assert forall|x: Seq<char>| sv.contains(x) <==> exists|k: int|
            0 <= k < v.len() && (#[trigger] v[k]).uid@ == x && selector_selects(v[k].sources, source)
                && selector_selects(v[k].destinations, destination) by {
            if sv.contains(x) {
                if sw.contains(x) {
                    let k = choose|k: int|
                        0 <= k < w.len() && (#[trigger] w[k]).uid@ == x && selector_selects(w[k].sources, source)
                            && selector_selects(w[k].destinations, destination);
                    assert(v[k] == w[k]);
                } else {
                    let j = choose|j: int| 0 <= j < sv.len() && sv[j] == x;
                    if sv != sw {
                        assert(sv == sw.push(v.last().uid@));
                        if j < sw.len() {
                            assert(sw.contains(x));
                        }
                        assert(v[v.len() - 1] == v.last());
                    }
                }
            }
            if exists|k: int|
                0 <= k < v.len() && (#[trigger] v[k]).uid@ == x && selector_selects(v[k].sources, source)
                    && selector_selects(v[k].destinations, destination) {
                let k = choose|k: int|
                    0 <= k < v.len() && (#[trigger] v[k]).uid@ == x && selector_selects(v[k].sources, source)
                        && selector_selects(v[k].destinations, destination);
                if k < w.len() {
                    assert(w[k] == v[k]);
                    assert(sw.contains(x));
                    let j = choose|j: int| 0 <= j < sw.len() && sw[j] == x;
                    if sv != sw {
                        assert(sv == sw.push(v.last().uid@));
                        assert(sv[j] == x);
                    }
                } else {
                    assert(v[k] == v.last());
                    assert(sv == sw.push(v.last().uid@));
                    assert(sv[sw.len() as int] == x);
                }
            }
        }
        if sv.len() == 0 {
            if exists|k: int|
                0 <= k < v.len() && selector_selects((#[trigger] v[k]).sources, source) && selector_selects(
                    v[k].destinations,
                    destination,
                ) {
                let k = choose|k: int|
                    0 <= k < v.len() && selector_selects((#[trigger] v[k]).sources, source) && selector_selects(
                        v[k].destinations,
                        destination,
                    );
                assert(v[k].uid@ == v[k].uid@);
                assert(sv.contains(v[k].uid@));
            }
        } else {
            assert(sv.contains(sv[0]));
        }
    }
}

/// What `EncryptionModel::verify_normalized` reports.
pub open spec fn normalized_error(m: EncryptionModel) -> Option<EncryptionModelError> {
    if m.schema_version != ENCRYPTION_MODEL_SCHEMA_VERSION {
        Some(
            EncryptionModelError::UnsupportedSchema {
                actual: m.schema_version,
                expected: ENCRYPTION_MODEL_SCHEMA_VERSION,
            },
        )
    } else if model_error(m.cluster_id@, m.intents@) is Some {
        model_error(m.cluster_id@, m.intents@)
    } else if !intents_sorted(m.intents@) {
        Some(EncryptionModelError::NotNormalized)
    } else {
        None
    }
}

/// `r` is what normalizing a model from these inputs answers: the first
/// rejected input, or else the model with its intents strictly ordered by
/// priority, name, and UID.
pub open spec fn normalized_as(
    r: Result<EncryptionModel, EncryptionModelError>,
    cluster_id: String,
    baseline: EncryptionBaseline,
    intents: Seq<EncryptionIntent>,
) -> bool {
    &&& model_error(cluster_id@, intents) matches Some(e) ==> r == Err::<EncryptionModel, EncryptionModelError>(e)
    &&& model_error(cluster_id@, intents) is None ==> (r matches Ok(m) && m.schema_version == ENCRYPTION_MODEL_SCHEMA_VERSION
        && m.cluster_id == cluster_id && m.baseline == baseline && intents_sorted(m.intents@)
        && m.intents@.to_multiset() == intents.to_multiset())
}

impl EncryptionModel {
    /// Validates a complete encryption model and orders its intents by
    /// priority, name, and UID.
    pub fn normalize(
        cluster_id: String,
        baseline: EncryptionBaseline,
        intents: Vec<EncryptionIntent>,
    ) -> (r: Result<Self, EncryptionModelError>)
        ensures
            normalized_as(r, cluster_id, baseline, intents@),
    {
        if !validate_text(cluster_id.as_str()) {
            return Err(EncryptionModelError::InvalidText { field: "cluster_id" });
        }
        if intents.len() > MAX_ENCRYPTION_INTENTS {
            return Err(
                EncryptionModelError::TooManyIntents {
                    actual: intents.len(),
                    limit: MAX_ENCRYPTION_INTENTS,
                },
            );
        }
        check_intents(&intents)?;
        let ghost orig = intents@;
        proof {
            lemma_no_error_distinct_names(orig);
        }
        let mut rest = intents;
        let mut out: Vec<EncryptionIntent> = Vec::new();
        proof {
            vstd::seq_lib::to_multiset_len(out@);
            vstd::multiset::lemma_multiset_empty_len(out@.to_multiset());
            assert(out@.to_multiset().add(rest@.to_multiset()) =~= rest@.to_multiset());
            assert(rest@ =~= orig.skip(0));
        }
        let mut k: usize = 0;
        let n = rest.len();
        while rest.len() > 0
            invariant
                k + rest@.len() == n,
                rest@ == orig.skip(k as int),
                n == orig.len(),
                intents_sorted(out@),
                out@.to_multiset().add(rest@.to_multiset()) == orig.to_multiset(),
                forall|i: int, j: int| 0 <= i < j < orig.len() ==> (#[trigger] orig[i]).name@ != (#[trigger] orig[j]).name@,
                forall|a: int, b: int|
                    0 <= a < out@.len() && 0 <= b < rest@.len() ==> (#[trigger] out@[a]).name@ != (
                    #[trigger] rest@[b]).name@,
            decreases rest@.len(),
        {
            let ghost before_out = out@;
            let ghost before_rest = rest@;
            let x = rest.remove(0);
            proof {
                assert(rest@ =~= orig.skip(k + 1));
                assert forall|i: int| 0 <= i < before_out.len() implies (#[trigger] before_out[i]).name@ != x.name@ by {
                    assert(before_rest[0] == x);
                }
                vstd::seq_lib::to_multiset_remove(before_rest, 0);
            }
            insert_intent_sorted(&mut out, x);
            proof {
                let p = choose|p: int| 0 <= p <= before_out.len() && out@ == before_out.insert(p, x);
                vstd::seq_lib::to_multiset_insert(before_out, p, x);
                assert(before_rest.remove(0) =~= rest@);
                assert(before_rest.to_multiset().remove(x).insert(x) =~= before_rest.to_multiset()) by {
                    assert(before_rest.to_multiset().contains(x)) by {
                        vstd::seq_lib::to_multiset_contains(before_rest, x);
                        assert(before_rest[0] == x);
                    }
                }
                assert(out@.to_multiset().add(rest@.to_multiset()) =~= before_out.to_multiset().add(
                    before_rest.to_multiset(),
                ));
                assert forall|a: int, b: int|
                    0 <= a < out@.len() && 0 <= b < rest@.len() implies (#[trigger] out@[a]).name@
                        != (#[trigger] rest@[b]).name@ by {
                    assert(rest@[b] == before_rest[b + 1]);
                    assert(before_rest[b + 1] == orig[k + 1 + b]);
                    assert(x == orig[k as int]);
                    if a < p {
                        assert(out@[a] == before_out[a]);
                    } else if a > p {
                        assert(out@[a] == before_out[a - 1]);
                    }
                }
            }
            k = k + 1;
        }
        proof {
            vstd::seq_lib::to_multiset_len(rest@);
            vstd::multiset::lemma_multiset_empty_len(rest@.to_multiset());
            assert(rest@.to_multiset() =~= Multiset::empty());
            assert(out@.to_multiset().add(Multiset::empty()) =~= out@.to_multiset());
        }
        Ok(
            EncryptionModel {
                schema_version: ENCRYPTION_MODEL_SCHEMA_VERSION,
                cluster_id,
                baseline,
                intents: out,
            },
        )
    }

    /// Resolves the monotonic encryption requirement for an identity pair:
    /// selective intents can add Required encryption but cannot weaken a
    /// Required cluster baseline.
    pub fn requirement(&self, source: IdentityId, destination: IdentityId) -> (r:
        EncryptionRequirementDecision)
        ensures
            crate::text::texts_view(r.intent_uids@) == selected_uids(self.intents@, source, destination),
            r.disposition == (if self.baseline == EncryptionBaseline::Required || selected_uids(
                self.intents@,
                source,
                destination,
            ).len() > 0 {
                EncryptionDisposition::Required
            } else {
                EncryptionDisposition::Native
            }),
            r.disposition == EncryptionDisposition::Native <==> self.baseline != EncryptionBaseline::Required
                && !exists|k: int|
                0 <= k < self.intents@.len() && selector_selects((#[trigger] self.intents@[k]).sources, source)
                    && selector_selects(self.intents@[k].destinations, destination),
            forall|j: int|
                0 <= j < r.intent_uids@.len() ==> exists|k: int|
                    0 <= k < self.intents@.len() && (#[trigger] self.intents@[k]).uid@ == (#[trigger] r.intent_uids@[j])@
                        && selector_selects(self.intents@[k].sources, source) && selector_selects(
                        self.intents@[k].destinations,
                        destination,
                    ),
    {
        let mut uids: Vec<String> = Vec::new();
        let mut i: usize = 0;
        while i < self.intents.len()
            invariant
                i <= self.intents@.len(),
                crate::text::texts_view(uids@) == selected_uids(self.intents@.take(i as int), source, destination),
            decreases self.intents@.len() - i,
        {
            let intent = &self.intents[i];
            proof {
                assert(self.intents@.take(i + 1).drop_last() =~= self.intents@.take(i as int));
            }
            if intent.sources.selects(source) && intent.destinations.selects(destination) {
                uids.push(intent.uid.clone());
                assert(crate::text::texts_view(uids@) =~= selected_uids(self.intents@.take(i as int), source, destination).push(intent.uid@));
            }
            i = i + 1;
        }
        assert(self.intents@.take(i as int) =~= self.intents@);
        proof {
            lemma_selected_uids_exact(self.intents@, source, destination);
            let sel = selected_uids(self.intents@, source, destination);
            assert forall|j: int| 0 <= j < uids@.len() implies exists|k: int|
                0 <= k < self.intents@.len() && (#[trigger] self.intents@[k]).uid@ == (#[trigger] uids@[j])@
                    && selector_selects(self.intents@[k].sources, source) && selector_selects(
                    self.intents@[k].destinations,
                    destination,
                ) by {
                assert(crate::text::texts_view(uids@)[j] == uids@[j]@);
                assert(sel[j] == uids@[j]@);
                assert(sel.contains(uids@[j]@));
            }
        }
        let disposition = if self.baseline == EncryptionBaseline::Required || uids.len() > 0 {
            EncryptionDisposition::Required
        } else {
            EncryptionDisposition::Native
        };
        EncryptionRequirementDecision { disposition, intent_uids: uids }
    }

    /// Accepts exactly a model that `normalize` would have produced from its
    /// own fields.
    pub fn verify_normalized(&self) -> (r: Result<(), EncryptionModelError>)
        ensures
            match normalized_error(*self) {
                Some(e) => r == Err::<(), EncryptionModelError>(e),
                None => r is Ok,
            },
    {
        if self.schema_version != ENCRYPTION_MODEL_SCHEMA_VERSION {
            return Err(
                EncryptionModelError::UnsupportedSchema {
                    actual: self.schema_version,
                    expected: ENCRYPTION_MODEL_SCHEMA_VERSION,
                },
            );
        }
        if !validate_text(self.cluster_id.as_str()) {
            return Err(EncryptionModelError::InvalidText { field: "cluster_id" });
        }
        if self.intents.len() > MAX_ENCRYPTION_INTENTS {
            return Err(
                EncryptionModelError::TooManyIntents {
                    actual: self.intents.len(),
                    limit: MAX_ENCRYPTION_INTENTS,
                },
            );
        }
        check_intents(&self.intents)?;
        let n = self.intents.len();
        let mut i: usize = 1;
        while i < n
            invariant
                normalized_error(*self) is None || normalized_error(*self) == Some(
                    EncryptionModelError::NotNormalized,
                ),
                n == self.intents@.len(),
                1 <= i,
                i <= n || n == 0,
                forall|a: int, b: int|
                    0 <= a < b < i && b < n ==> intent_key_lt(#[trigger] self.intents@[a], #[trigger] self.intents@[b]),
            decreases n - i,
        {
            if !intent_less(&self.intents[i - 1], &self.intents[i]) {
                return Err(EncryptionModelError::NotNormalized);
            }
            proof {
                assert forall|a: int, b: int| 0 <= a < b < i + 1 && b < n implies intent_key_lt(
                    #[trigger] self.intents@[a],
                    #[trigger] self.intents@[b],
                ) by {
                    if b == i && a < i - 1 {
                        lemma_intent_key_lt_transitive(self.intents@[a], self.intents@[i - 1], self.intents@[b]);
                    }
                }
            }
            i = i + 1;
        }
        Ok(())
    }
}

} // verus!
