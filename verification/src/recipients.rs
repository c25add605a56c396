//! Node identities that receive encryption generations, and their canonical
//! order.

use vstd::prelude::*;
use crate::text::{
    bounded_text, compare_text, is_bounded_text, lemma_text_lt_asymmetric, lemma_text_lt_transitive,
    lemma_text_order_antisymmetric, lemma_text_order_eq, lemma_text_total, text_lt, text_order,
};

verus! {

/// Bound on the UTF-8 length of a Node name or UID.
pub const MAX_NODE_IDENTITY_BYTES: usize = 253;

/// One Node, named by its name and immutable UID.
#[derive(Clone, Debug)]
pub struct EncryptionGenerationRecipient {
    pub node_name: String,
    pub node_uid: String,
}

#[derive(Debug)]
pub enum EncryptionGenerationDistributionError {
    InvalidRequest,
    InvalidRecipient,
    RecipientMismatch,
    InvalidTransition,
    GenerationRegression,
    PredecessorMismatch,
    RequestMismatch,
    InvalidCapsule,
    InvalidAdmittedGeneration,
    Randomness(String),
    CanonicalEncoding(String),
}

/// The (name, UID) pair of a recipient.
pub open spec fn recipient_view(r: EncryptionGenerationRecipient) -> (Seq<char>, Seq<char>) {
    (r.node_name@, r.node_uid@)
}

pub open spec fn recipients_view(v: Seq<EncryptionGenerationRecipient>) -> Seq<(Seq<char>, Seq<char>)> {
    v.map_values(|r: EncryptionGenerationRecipient| recipient_view(r))
}

/// Order by name, then by UID.
pub open spec fn pair_lt(a: (Seq<char>, Seq<char>), b: (Seq<char>, Seq<char>)) -> bool {
    text_lt(a.0, b.0) || (a.0 == b.0 && text_lt(a.1, b.1))
}

/// Strictly increasing by name, then UID (hence free of duplicates).
pub open spec fn pairs_sorted(v: Seq<(Seq<char>, Seq<char>)>) -> bool {
    forall|a: int, b: int| 0 <= a < b < v.len() ==> pair_lt(#[trigger] v[a], #[trigger] v[b])
}

pub proof fn lemma_pair_lt_transitive(
    a: (Seq<char>, Seq<char>),
    b: (Seq<char>, Seq<char>),
    c: (Seq<char>, Seq<char>),
)
    requires
        pair_lt(a, b),
        pair_lt(b, c),
    ensures
        pair_lt(a, c),
{
    if text_lt(a.0, b.0) && text_lt(b.0, c.0) {
        lemma_text_lt_transitive(a.0, b.0, c.0);
    } else if a.0 == b.0 && b.0 == c.0 {
        lemma_text_lt_transitive(a.1, b.1, c.1);
    }
}

pub proof fn lemma_pair_total(a: (Seq<char>, Seq<char>), b: (Seq<char>, Seq<char>))
    ensures
        pair_lt(a, b) || a == b || pair_lt(b, a),
{
    lemma_text_total(a.0, b.0);
    lemma_text_total(a.1, b.1);
}

pub proof fn lemma_pair_lt_asymmetric(a: (Seq<char>, Seq<char>), b: (Seq<char>, Seq<char>))
    requires
        pair_lt(a, b),
    ensures
        !pair_lt(b, a),
        a != b,
{
    lemma_text_order_eq(a.0, b.0);
    lemma_text_order_eq(a.1, b.1);
    lemma_text_order_antisymmetric(a.0, b.0);
    lemma_text_order_antisymmetric(a.1, b.1);
}

impl EncryptionGenerationRecipient {
    /// An identical copy.
    pub fn duplicate(&self) -> (r: Self)
        ensures
            r == *self,
    {
        EncryptionGenerationRecipient {
            node_name: self.node_name.clone(),
            node_uid: self.node_uid.clone(),
        }
    }
}

/// Whether `a` orders strictly before `b`.
pub fn recipient_lt(a: &EncryptionGenerationRecipient, b: &EncryptionGenerationRecipient) -> (r: bool)
    ensures
        r == pair_lt(recipient_view(*a), recipient_view(*b)),
{
    let by_name = compare_text(a.node_name.as_str(), b.node_name.as_str());
    proof {
        lemma_text_order_eq(a.node_name@, b.node_name@);
    }
    if by_name < 0 {
        true
    } else if by_name > 0 {
        false
    } else {
        compare_text(a.node_uid.as_str(), b.node_uid.as_str()) < 0
    }
}

/// Whether `a` and `b` name the same Node.
pub fn recipient_eq(a: &EncryptionGenerationRecipient, b: &EncryptionGenerationRecipient) -> (r: bool)
    ensures
        r == (recipient_view(*a) == recipient_view(*b)),
{
    let n = compare_text(a.node_name.as_str(), b.node_name.as_str());
    let u = compare_text(a.node_uid.as_str(), b.node_uid.as_str());
    proof {
        lemma_text_order_eq(a.node_name@, b.node_name@);
        lemma_text_order_eq(a.node_uid@, b.node_uid@);
    }
    n == 0 && u == 0
}

/// A bounded Node identity text.
pub open spec fn identity_text(s: Seq<char>) -> bool {
    bounded_text(s, MAX_NODE_IDENTITY_BYTES as nat)
}

pub fn valid_identity(value: &str) -> (r: bool)
    ensures
        r == identity_text(value@),
{
    is_bounded_text(value, MAX_NODE_IDENTITY_BYTES)
}

pub open spec fn recipient_ok(r: EncryptionGenerationRecipient) -> bool {
    identity_text(r.node_name@) && identity_text(r.node_uid@)
}

pub fn validate_recipient(recipient: &EncryptionGenerationRecipient) -> (r: Result<
    (),
    EncryptionGenerationDistributionError,
>)
    ensures
        r is Ok <==> recipient_ok(*recipient),
        r is Err ==> r->Err_0 is InvalidRecipient,
{
    if !valid_identity(recipient.node_name.as_str()) || !valid_identity(recipient.node_uid.as_str()) {
        return Err(EncryptionGenerationDistributionError::InvalidRecipient);
    }
    Ok(())
}

/// Whether `v` names `r`.
pub fn contains_recipient(v: &Vec<EncryptionGenerationRecipient>, r: &EncryptionGenerationRecipient) -> (found: Option<usize>)
    ensures
        match found {
            Some(i) => i < v@.len() && recipient_view(v@[i as int]) == recipient_view(*r),
            None => !recipients_view(v@).contains(recipient_view(*r)),
        },
{
    let mut i: usize = 0;
    while i < v.len()
        invariant
            i <= v@.len(),
            forall|j: int| 0 <= j < i ==> recipient_view(#[trigger] v@[j]) != recipient_view(*r),
        decreases v@.len() - i,
    {
        if recipient_eq(&v[i], r) {
            return Some(i);
        }
        i = i + 1;
    }
    proof {
        let w = recipients_view(v@);
        if w.contains(recipient_view(*r)) {
            let j = choose|j: int| 0 <= j < w.len() && w[j] == recipient_view(*r);
            assert(w[j] == recipient_view(v@[j]));
        }
    }
    None
}

/// Inserts `r` at its place in a strictly increasing list, unless the list
/// already names it.
fn insert_recipient_sorted(v: &mut Vec<EncryptionGenerationRecipient>, r: EncryptionGenerationRecipient) -> (inserted: bool)
    requires
        pairs_sorted(recipients_view(old(v)@)),
    ensures
        pairs_sorted(recipients_view(final(v)@)),
        inserted == !recipients_view(old(v)@).contains(recipient_view(r)),
        inserted ==> recipients_view(final(v)@).to_set() == recipients_view(old(v)@).to_set().insert(
            recipient_view(r),
        ) && final(v)@.len() == old(v)@.len() + 1,
        !inserted ==> final(v)@ == old(v)@,
{
    let n = v.len();
    let mut p: usize = 0;
    while p < n && recipient_lt(&v[p], &r)
        invariant
            n == v@.len(),
            p <= n,
            v@ == old(v)@,
            forall|j: int| 0 <= j < p ==> pair_lt(recipient_view(#[trigger] v@[j]), recipient_view(r)),
        decreases n - p,
    {
        p = p + 1;
    }
    let ghost ov = v@;
    let ghost o = recipients_view(ov);
    let ghost s = recipient_view(r);
    proof {
        assert forall|j: int| 0 <= j < p implies pair_lt(#[trigger] o[j], s) by {
            assert(o[j] == recipient_view(ov[j]));
        }
        if p < n {
            assert(o[p as int] == recipient_view(ov[p as int]));
            lemma_pair_total(o[p as int], s);
        }
    }
    if p < n && recipient_eq(&v[p], &r) {
        assert(o[p as int] == recipient_view(ov[p as int]));
        assert(o.contains(s));
        return false;
    }
    proof {
        assert forall|j: int| p <= j < o.len() implies pair_lt(s, #[trigger] o[j]) by {
            assert(o[p as int] == recipient_view(ov[p as int]));
            if j > p {
                lemma_pair_lt_transitive(s, o[p as int], o[j]);
            }
        }
        if o.contains(s) {
            let j = choose|j: int| 0 <= j < o.len() && o[j] == s;
            if j < p {
                lemma_pair_lt_asymmetric(o[j], s);
            } else {
                lemma_pair_lt_asymmetric(s, o[j]);
            }
        }
    }
    v.insert(p, r);
    proof {
        let nv = recipients_view(v@);
        assert(v@ == ov.insert(p as int, r));
        assert(nv.len() == o.len() + 1);
        assert forall|j: int| 0 <= j < p implies #[trigger] nv[j] == o[j] by {
            assert(nv[j] == recipient_view(v@[j]));
            assert(o[j] == recipient_view(ov[j]));
        }
        assert forall|j: int| p < j < nv.len() implies #[trigger] nv[j] == o[j - 1] by {
            assert(nv[j] == recipient_view(v@[j]));
            assert(v@[j] == ov[j - 1]);
            assert(o[j - 1] == recipient_view(ov[j - 1]));
        }
        assert(nv[p as int] == recipient_view(v@[p as int]));
        assert(nv[p as int] == s);
        assert forall|a: int, b: int| 0 <= a < b < nv.len() implies pair_lt(
            #[trigger] nv[a],
            #[trigger] nv[b],
        ) by {
            if b == p {
                assert(nv[a] == o[a]);
            } else if a == p {
                assert(nv[b] == o[b - 1]);
            } else if a < p && b > p {
                assert(nv[a] == o[a]);
                assert(nv[b] == o[b - 1]);
                lemma_pair_lt_transitive(o[a], s, nv[b]);
            } else if a > p {
                assert(nv[a] == o[a - 1]);
                assert(nv[b] == o[b - 1]);
            } else {
                assert(nv[a] == o[a]);
                assert(nv[b] == o[b]);
            }
        }
        assert forall|x: (Seq<char>, Seq<char>)| nv.to_set().contains(x) <==> o.to_set().insert(s).contains(x) by {
            if nv.to_set().contains(x) {
                let j = choose|j: int| 0 <= j < nv.len() && nv[j] == x;
                if j < p {
                    assert(o[j] == x);
                } else if j > p {
                    assert(o[j - 1] == x);
                }
            }
            if o.to_set().contains(x) {
                let j = choose|j: int| 0 <= j < o.len() && o[j] == x;
                if j < p {
                    assert(nv[j] == x);
                } else {
                    assert(nv[j + 1] == x);
                }
            }
        }
        assert(nv.to_set() =~= o.to_set().insert(s));
    }
    true
}

/// The canonical membership form of a list of recipients: strictly increasing
/// by name, then UID. A list that names one Node twice has none.
pub fn canonical_recipients(v: Vec<EncryptionGenerationRecipient>) -> (r: Option<
    Vec<EncryptionGenerationRecipient>,
>)
    ensures
        r matches Some(out) ==> pairs_sorted(recipients_view(out@)) && recipients_view(out@).to_set()
            == recipients_view(v@).to_set() && out@.len() == v@.len(),
        r is None ==> exists|i: int, j: int|
            0 <= i < j < v@.len() && recipient_view(#[trigger] v@[i]) == recipient_view(
                #[trigger] v@[j],
            ),
{
    let mut out: Vec<EncryptionGenerationRecipient> = Vec::new();
    let n = v.len();
    let mut i: usize = 0;
    while i < n
        invariant
            n == v@.len(),
            i <= n,
            out@.len() == i,
            pairs_sorted(recipients_view(out@)),
            recipients_view(out@).to_set() == recipients_view(v@.take(i as int)).to_set(),
        decreases n - i,
    {
        let ghost before = recipients_view(out@);
        let item = v[i].duplicate();
        let inserted = insert_recipient_sorted(&mut out, item);
        proof {
            assert(recipients_view(v@.take(i + 1)) =~= recipients_view(v@.take(i as int)).push(
                recipient_view(v@[i as int]),
            ));
            recipients_view(v@.take(i as int)).lemma_push_to_set_commute(recipient_view(v@[i as int]));
        }
        if !inserted {
            proof {
                let x = recipient_view(v@[i as int]);
                assert(before.to_set().contains(x));
                assert(recipients_view(v@.take(i as int)).to_set().contains(x));
                let w = recipients_view(v@.take(i as int));
                let j = choose|j: int| 0 <= j < w.len() && w[j] == x;
                assert(w[j] == recipient_view(v@[j]));
                assert(recipient_view(v@[j]) == recipient_view(v@[i as int]));
            }
            return None;
        }
        i = i + 1;
    }
    assert(v@.take(n as int) =~= v@);
    Some(out)
}

} // verus!

verus! {

/// Two strictly increasing lists holding the same pairs are equal.
pub proof fn lemma_pairs_sorted_same_set_eq(a: Seq<(Seq<char>, Seq<char>)>, b: Seq<(Seq<char>, Seq<char>)>)
    requires
        pairs_sorted(a),
        pairs_sorted(b),
        a.to_set() == b.to_set(),
    ensures
        a == b,
{
    lemma_pairs_sorted_no_duplicates(a);
    lemma_pairs_sorted_no_duplicates(b);
    a.unique_seq_to_set();
    b.unique_seq_to_set();
    let n = a.len() as int;
    assert forall|i: int| 0 <= i < n implies b.contains(#[trigger] a[i]) by {
        assert(a.to_set().contains(a[i]));
    }
    let f = Seq::new(a.len(), |i: int| choose|k: int| 0 <= k < n && b[k] == a[i]);
    assert forall|i: int| 0 <= i < n implies 0 <= #[trigger] f[i] < n && b[f[i]] == a[i] by {
        assert(b.contains(a[i]));
    }
    assert forall|x: int, y: int| 0 <= x < y < n implies #[trigger] f[x] < #[trigger] f[y] by {
        assert(0 <= f[x] < n && b[f[x]] == a[x]);
        assert(0 <= f[y] < n && b[f[y]] == a[y]);
        assert(pair_lt(a[x], a[y]));
        if f[y] < f[x] {
            assert(pair_lt(b[f[y]], b[f[x]]));
            lemma_pair_lt_asymmetric(a[x], a[y]);
        } else if f[y] == f[x] {
            lemma_pair_lt_asymmetric(a[x], a[y]);
        }
    }
    assert forall|i: int| 0 <= i < n implies a[i] == b[i] by {
        assert forall|k: int| 0 <= k < f.len() implies 0 <= #[trigger] f[k] && f[k] < f.len() by {
            assert(0 <= f[k] < n && b[f[k]] == a[k]);
        }
        crate::text::lemma_increasing_lower(f, i);
        crate::text::lemma_increasing_upper(f, i);
        assert(0 <= f[i] < n && b[f[i]] == a[i]);
    }
    assert(a =~= b);
}

pub proof fn lemma_pairs_sorted_no_duplicates(a: Seq<(Seq<char>, Seq<char>)>)
    requires
        pairs_sorted(a),
    ensures
        a.no_duplicates(),
{
    assert forall|i: int, j: int| 0 <= i < a.len() && 0 <= j < a.len() && i != j implies a[i]
        != a[j] by {
        if i < j {
            lemma_pair_lt_asymmetric(a[i], a[j]);
        } else {
            lemma_pair_lt_asymmetric(a[j], a[i]);
        }
    }
}

/// A canonical list of `v` has no duplicates exactly when `v` has none, and
/// holds only valid recipients exactly when `v` does.
pub proof fn lemma_canonical_recipients(
    v: Seq<EncryptionGenerationRecipient>,
    out: Seq<EncryptionGenerationRecipient>,
)
    requires
        pairs_sorted(recipients_view(out)),
        recipients_view(out).to_set() == recipients_view(v).to_set(),
        out.len() == v.len(),
    ensures
        recipients_view(v).no_duplicates(),
        (forall|i: int| 0 <= i < v.len() ==> recipient_ok(#[trigger] v[i])) <==> (forall|i: int|
            0 <= i < out.len() ==> recipient_ok(#[trigger] out[i])),
{
    let w = recipients_view(v);
    let o = recipients_view(out);
    lemma_pairs_sorted_no_duplicates(o);
    o.unique_seq_to_set();
    w.lemma_no_dup_set_cardinality();
    if forall|i: int| 0 <= i < v.len() ==> recipient_ok(#[trigger] v[i]) {
        assert forall|i: int| 0 <= i < out.len() implies recipient_ok(#[trigger] out[i]) by {
            assert(o[i] == recipient_view(out[i]));
            assert(o.to_set().contains(o[i]));
            let j = choose|j: int| 0 <= j < w.len() && w[j] == o[i];
            assert(w[j] == recipient_view(v[j]));
            assert(recipient_ok(v[j]));
        }
    }
    if forall|i: int| 0 <= i < out.len() ==> recipient_ok(#[trigger] out[i]) {
        assert forall|i: int| 0 <= i < v.len() implies recipient_ok(#[trigger] v[i]) by {
            assert(w[i] == recipient_view(v[i]));
            assert(w.to_set().contains(w[i]));
            let j = choose|j: int| 0 <= j < o.len() && o[j] == w[i];
            assert(o[j] == recipient_view(out[j]));
            assert(recipient_ok(out[j]));
        }
    }
}

/// Whether two strictly increasing lists name the same Nodes.
pub fn same_recipients(a: &Vec<EncryptionGenerationRecipient>, b: &Vec<EncryptionGenerationRecipient>) -> (r: bool)
    requires
        pairs_sorted(recipients_view(a@)),
        pairs_sorted(recipients_view(b@)),
    ensures
        r == (recipients_view(a@).to_set() == recipients_view(b@).to_set()),
{
    if a.len() != b.len() {
        proof {
            lemma_pairs_sorted_no_duplicates(recipients_view(a@));
            lemma_pairs_sorted_no_duplicates(recipients_view(b@));
            recipients_view(a@).unique_seq_to_set();
            recipients_view(b@).unique_seq_to_set();
        }
        return false;
    }
    let mut i: usize = 0;
    while i < a.len()
        invariant
            a@.len() == b@.len(),
            i <= a@.len(),
            pairs_sorted(recipients_view(a@)),
            pairs_sorted(recipients_view(b@)),
            forall|j: int| 0 <= j < i ==> recipient_view(#[trigger] a@[j]) == recipient_view(b@[j]),
        decreases a@.len() - i,
    {
        if !recipient_eq(&a[i], &b[i]) {
            proof {
                if recipients_view(a@).to_set() == recipients_view(b@).to_set() {
                    lemma_pairs_sorted_same_set_eq(recipients_view(a@), recipients_view(b@));
                    assert(recipients_view(a@)[i as int] == recipient_view(a@[i as int]));
                    assert(recipients_view(b@)[i as int] == recipient_view(b@[i as int]));
                }
            }
            return false;
        }
        i = i + 1;
    }
    assert(recipients_view(a@) =~= recipients_view(b@));
    true
}

} // verus!
