//! Sorting by a strict weak key order, with duplicate-key detection.

use vstd::prelude::*;
use vstd::seq_lib::{to_multiset_contains, to_multiset_insert};

verus! {

/// A value ordered by a key: `key_lt` is a strict weak order.
pub trait Keyed: Sized {
    spec fn key_lt(self, other: Self) -> bool;

    proof fn lemma_key_order(a: Self, b: Self, c: Self)
        ensures
            !a.key_lt(a),
            a.key_lt(b) ==> !b.key_lt(a),
            a.key_lt(b) && b.key_lt(c) ==> a.key_lt(c),
            !b.key_lt(a) && !c.key_lt(b) ==> !c.key_lt(a),
    ;

    fn key_less(&self, other: &Self) -> (r: bool)
        ensures
            r == self.key_lt(*other),
    ;
}

/// The keys of `a` and `b` are equal.
pub open spec fn key_eq<T: Keyed>(a: T, b: T) -> bool {
    !a.key_lt(b) && !b.key_lt(a)
}

/// Nondecreasing by key.
pub open spec fn sorted_by_key<T: Keyed>(s: Seq<T>) -> bool {
    forall|i: int, j: int| 0 <= i < j < s.len() ==> !(#[trigger] s[j]).key_lt(#[trigger] s[i])
}

/// Strictly increasing by key.
pub open spec fn strictly_sorted_by_key<T: Keyed>(s: Seq<T>) -> bool {
    forall|i: int, j: int| 0 <= i < j < s.len() ==> (#[trigger] s[i]).key_lt(#[trigger] s[j])
}

/// No two positions hold equal keys.
pub open spec fn keys_distinct<T: Keyed>(s: Seq<T>) -> bool {
    forall|i: int, j: int| 0 <= i < j < s.len() ==> !key_eq(#[trigger] s[i], #[trigger] s[j])
}

/// The first position whose key is above that of `x`, or the end.
fn upper_position<T: Keyed>(v: &Vec<T>, x: &T) -> (p: usize)
    requires
        sorted_by_key(v@),
    ensures
        p <= v@.len(),
        forall|i: int| 0 <= i < p ==> !x.key_lt(#[trigger] v@[i]),
        forall|i: int| p <= i < v@.len() ==> x.key_lt(#[trigger] v@[i]),
{
    let mut p: usize = 0;
    let mut found = false;
    while p < v.len() && !found
        invariant
            p <= v@.len(),
            sorted_by_key(v@),
            found ==> p > 0 && x.key_lt(v@[p - 1]),
            forall|i: int| 0 <= i < (if found { p - 1 } else { p as int }) ==> !x.key_lt(#[trigger] v@[i]),
        decreases v@.len() - p + (if found { 0int } else { 1int }),
    {
        if x.key_less(&v[p]) {
            found = true;
        }
        p = p + 1;
    }
    let q = if found { p - 1 } else { p };
    proof {
        assert forall|i: int| q <= i < v@.len() implies x.key_lt(#[trigger] v@[i]) by {
            if i > q {
                T::lemma_key_order(*x, v@[q as int], v@[i]);
                T::lemma_key_order(v@[i], v@[q as int], *x);
                T::lemma_key_order(*x, v@[i], v@[q as int]);
                T::lemma_key_order(v@[q as int], v@[i], *x);
            }
        }
    }
    q
}

proof fn lemma_insert_sorted<T: Keyed>(v: Seq<T>, p: int, x: T)
    requires
        sorted_by_key(v),
        0 <= p <= v.len(),
        forall|i: int| 0 <= i < p ==> !x.key_lt(#[trigger] v[i]),
        forall|i: int| p <= i < v.len() ==> x.key_lt(#[trigger] v[i]),
    ensures
        sorted_by_key(v.insert(p, x)),
{
    let w = v.insert(p, x);
    assert forall|i: int, j: int| 0 <= i < j < w.len() implies !(#[trigger] w[j]).key_lt(#[trigger] w[i]) by {
        if i == p {
            assert(w[j] == v[j - 1]);
            T::lemma_key_order(x, w[j], x);
        } else if j == p {
            assert(w[i] == v[i]);
        } else if i < p && j < p {
            assert(w[i] == v[i] && w[j] == v[j]);
        } else if i < p && j > p {
            assert(w[i] == v[i] && w[j] == v[j - 1]);
        } else {
            assert(w[i] == v[i - 1] && w[j] == v[j - 1]);
        }
    }
}

/// Sorts by key; elements with equal keys may come in any order.
pub fn sort_by_key<T: Keyed>(v: Vec<T>) -> (r: Vec<T>)
    ensures
        r@.to_multiset() == v@.to_multiset(),
        sorted_by_key(r@),
{
    let ghost input = v@;
    let mut rest = v;
    let mut out: Vec<T> = Vec::new();
    assert(out@ =~= input.subrange(input.len() as int, input.len() as int));
    while rest.len() > 0
        invariant
            rest@ == input.take(rest@.len() as int),
            rest@.len() <= input.len(),
            out@.to_multiset() == input.subrange(rest@.len() as int, input.len() as int).to_multiset(),
            sorted_by_key(out@),
        decreases rest@.len(),
    {
        let ghost before = out@;
        let ghost n = rest@.len();
        let x = rest.pop().unwrap();
        assert(x == input[n - 1]);
        let p = upper_position(&out, &x);
        proof {
            lemma_insert_sorted(out@, p as int, x);
            to_multiset_insert(out@, p as int, x);
            let done = input.subrange(n as int, input.len() as int);
            let suffix = input.subrange(n - 1, input.len() as int);
            assert(suffix =~= done.insert(0, x));
            to_multiset_insert(done, 0, x);
        }
        out.insert(p, x);
        proof {
            assert(rest@ =~= input.take(rest@.len() as int));
        }
    }
    assert(input.subrange(0, input.len() as int) =~= input);
    out
}

/// Sorts by key when no two elements share a key; otherwise reports `None`.
pub fn sort_unique_by_key<T: Keyed>(v: Vec<T>) -> (r: Option<Vec<T>>)
    ensures
        r is Some <==> keys_distinct(v@),
        r matches Some(out) ==> out@.to_multiset() == v@.to_multiset() && strictly_sorted_by_key(out@),
{
    let ghost input = v@;
    let mut rest = v;
    let mut out: Vec<T> = Vec::new();
    assert(out@ =~= input.subrange(input.len() as int, input.len() as int));
    while rest.len() > 0
        invariant
            rest@ == input.take(rest@.len() as int),
            rest@.len() <= input.len(),
            out@.to_multiset() == input.subrange(rest@.len() as int, input.len() as int).to_multiset(),
            strictly_sorted_by_key(out@),
            keys_distinct(input.subrange(rest@.len() as int, input.len() as int)),
            input == v@,
        decreases rest@.len(),
    {
        let ghost before = out@;
        let ghost n = rest@.len();
        let ghost done = input.subrange(n as int, input.len() as int);
        let x = rest.pop().unwrap();
        assert(x == input[n - 1]);
        proof {
            assert(sorted_by_key(out@)) by {
                assert forall|i: int, j: int| 0 <= i < j < out@.len() implies !(#[trigger] out@[j]).key_lt(#[trigger] out@[i]) by {
                    T::lemma_key_order(out@[i], out@[j], out@[i]);
                }
            }
        }
        let p = upper_position(&out, &x);
        if p > 0 && !out[p - 1].key_less(&x) {
            proof {
                let y = out@[p - 1];
                assert(key_eq(y, x));
                assert(out@.contains(y));
                to_multiset_contains(out@, y);
                to_multiset_contains(done, y);
                assert(done.contains(y));
                let j = choose|j: int| 0 <= j < done.len() && done[j] == y;
                assert(input[n - 1] == x);
                assert(input[n + j] == y);
                assert(0 <= n - 1 < n + j < input.len());
                assert(key_eq(input[n - 1], input[n + j]));
                assert(!keys_distinct(input));
            }
            return None;
        }
        proof {
            assert forall|j: int| 0 <= j < done.len() implies !key_eq(x, #[trigger] done[j]) by {
                to_multiset_contains(done, done[j]);
                to_multiset_contains(out@, done[j]);
                let k = choose|k: int| 0 <= k < out@.len() && out@[k] == done[j];
                if k >= p {
                    assert(x.key_lt(out@[k]));
                } else if k == p - 1 {
                    assert(out@[k].key_lt(x));
                } else {
                    assert(out@[k].key_lt(out@[p - 1]));
                    T::lemma_key_order(out@[k], out@[p - 1], x);
                }
            }
            let suffix = input.subrange(n - 1, input.len() as int);
            assert(suffix =~= seq![x] + done);
            assert forall|i: int, j: int| 0 <= i < j < suffix.len() implies !key_eq(#[trigger] suffix[i], #[trigger] suffix[j]) by {
                if i == 0 {
                    assert(suffix[j] == done[j - 1]);
                } else {
                    assert(suffix[i] == done[i - 1] && suffix[j] == done[j - 1]);
                }
            }
            let w = out@.insert(p as int, x);
            assert forall|i: int, j: int| 0 <= i < j < w.len() implies (#[trigger] w[i]).key_lt(#[trigger] w[j]) by {
                if i == p {
                    assert(w[j] == out@[j - 1]);
                } else if j == p {
                    assert(w[i] == out@[i]);
                    if i < p - 1 {
                        T::lemma_key_order(out@[i], out@[p - 1], x);
                        T::lemma_key_order(x, out@[p - 1], out@[i]);
                    }
                } else if i < p && j < p {
                    assert(w[i] == out@[i] && w[j] == out@[j]);
                } else if i < p && j > p {
                    assert(w[i] == out@[i] && w[j] == out@[j - 1]);
                } else {
                    assert(w[i] == out@[i - 1] && w[j] == out@[j - 1]);
                }
            }
            to_multiset_insert(out@, p as int, x);
            assert(suffix =~= done.insert(0, x));
            to_multiset_insert(done, 0, x);
        }
        out.insert(p, x);
        proof {
            assert(rest@ =~= input.take(rest@.len() as int));
        }
    }
    assert(input.subrange(0, input.len() as int) =~= input);
    Some(out)
}

/// Two strictly sorted sequences with the same elements are equal.
pub proof fn lemma_sorted_unique<T: Keyed>(a: Seq<T>, b: Seq<T>)
    requires
        strictly_sorted_by_key(a),
        strictly_sorted_by_key(b),
        a.to_multiset() == b.to_multiset(),
    ensures
        a == b,
    decreases a.len(),
{
    vstd::seq_lib::to_multiset_len(a);
    vstd::seq_lib::to_multiset_len(b);
    if a.len() > 0 {
        assert(a.contains(a[0]));
        to_multiset_contains(a, a[0]);
        to_multiset_contains(b, a[0]);
        assert(b.contains(b[0]));
        to_multiset_contains(b, b[0]);
        to_multiset_contains(a, b[0]);
        let k = choose|k: int| 0 <= k < b.len() && b[k] == a[0];
        let m = choose|m: int| 0 <= m < a.len() && a[m] == b[0];
        if k > 0 && m > 0 {
            assert(b[0].key_lt(b[k]));
            assert(a[0].key_lt(a[m]));
            T::lemma_key_order(a[0], b[0], a[0]);
        }
        assert(a[0] == b[0]);
        vstd::seq_lib::to_multiset_remove(a, 0);
        vstd::seq_lib::to_multiset_remove(b, 0);
        assert(a.remove(0) =~= a.drop_first());
        assert(b.remove(0) =~= b.drop_first());
        lemma_sorted_unique(a.drop_first(), b.drop_first());
        assert(a =~= seq![a[0]] + a.drop_first());
        assert(b =~= seq![b[0]] + b.drop_first());
    } else {
        assert(b.len() == 0);
        assert(a =~= b);
    }
}

pub proof fn lemma_key_triple<T: Keyed>(a: T, b: T, c: T)
    ensures
        a.key_lt(b) && key_eq(b, c) ==> a.key_lt(c),
        key_eq(a, b) && b.key_lt(c) ==> a.key_lt(c),
        key_eq(a, b) && key_eq(b, c) ==> key_eq(a, c),
        key_eq(a, b) ==> key_eq(b, a),
        a.key_lt(b) ==> !key_eq(a, b),
{
    T::lemma_key_order(a, b, c);
    T::lemma_key_order(a, c, b);
    T::lemma_key_order(b, a, c);
    T::lemma_key_order(b, c, a);
    T::lemma_key_order(c, a, b);
    T::lemma_key_order(c, b, a);
}

/// Some element of `s` has the key of `x`.
pub open spec fn key_found_in<T: Keyed>(x: T, s: Seq<T>) -> bool {
    exists|j: int| 0 <= j < s.len() && key_eq(x, #[trigger] s[j])
}

/// Two strictly sorted sequences with the same keys hold them at the same
/// positions.
pub proof fn lemma_sorted_keys_align<T: Keyed>(a: Seq<T>, b: Seq<T>)
    requires
        strictly_sorted_by_key(a),
        strictly_sorted_by_key(b),
        forall|i: int| 0 <= i < a.len() ==> key_found_in(#[trigger] a[i], b),
        forall|j: int| 0 <= j < b.len() ==> key_found_in(#[trigger] b[j], a),
    ensures
        a.len() == b.len(),
        forall|i: int| 0 <= i < a.len() ==> key_eq(#[trigger] a[i], b[i]),
    decreases a.len(),
{
    if a.len() == 0 {
        if b.len() > 0 {
            assert(key_found_in(b[0], a));
        }
        return;
    }
    if b.len() == 0 {
        assert(key_found_in(a[0], b));
        return;
    }
    assert(key_found_in(a[0], b));
    assert(key_found_in(b[0], a));
    let j = choose|j: int| 0 <= j < b.len() && key_eq(a[0], #[trigger] b[j]);
    let i = choose|i: int| 0 <= i < a.len() && key_eq(b[0], #[trigger] a[i]);
    T::lemma_key_order(a[0], b[0], b[j]);
    T::lemma_key_order(b[0], a[0], a[i]);
    T::lemma_key_order(b[0], b[j], a[0]);
    T::lemma_key_order(a[0], a[i], b[0]);
    T::lemma_key_order(b[j], a[0], b[0]);
    T::lemma_key_order(a[i], b[0], a[0]);
    if j > 0 {
        assert(b[0].key_lt(b[j]));
        if i > 0 {
            assert(a[0].key_lt(a[i]));
        }
    }
    assert(key_eq(a[0], b[0]));
    let a1 = a.drop_first();
    let b1 = b.drop_first();
    assert(a1.len() == a.len() - 1 && b1.len() == b.len() - 1);
    assert forall|x: int| 0 <= x < a1.len() implies key_found_in(#[trigger] a1[x], b1) by {
        assert(a1[x] == a[x + 1]);
        assert(key_found_in(a[x + 1], b));
        let y = choose|y: int| 0 <= y < b.len() && key_eq(a[x + 1], #[trigger] b[y]);
        assert(a[0].key_lt(a[x + 1]));
        T::lemma_key_order(b[0], a[0], a[x + 1]);
        T::lemma_key_order(a[0], a[x + 1], b[y]);
        T::lemma_key_order(b[0], a[x + 1], b[y]);
        T::lemma_key_order(a[x + 1], b[y], b[0]);
        if y == 0 {
            lemma_key_triple(a[0], a[x + 1], b[0]);
            lemma_key_triple(a[0], b[0], a[x + 1]);
            assert(false);
        }
        assert(b1[y - 1] == b[y]);
    }
    assert forall|y: int| 0 <= y < b1.len() implies key_found_in(#[trigger] b1[y], a1) by {
        assert(b1[y] == b[y + 1]);
        assert(key_found_in(b[y + 1], a));
        let x = choose|x: int| 0 <= x < a.len() && key_eq(b[y + 1], #[trigger] a[x]);
        assert(b[0].key_lt(b[y + 1]));
        T::lemma_key_order(a[0], b[0], b[y + 1]);
        T::lemma_key_order(b[0], b[y + 1], a[x]);
        T::lemma_key_order(a[0], b[y + 1], a[x]);
        T::lemma_key_order(b[y + 1], a[x], a[0]);
        if x == 0 {
            lemma_key_triple(b[0], b[y + 1], a[0]);
            lemma_key_triple(b[0], a[0], b[y + 1]);
            assert(false);
        }
        assert(a1[x - 1] == a[x]);
    }
    lemma_sorted_keys_align(a1, b1);
    assert forall|x: int| 0 <= x < a.len() implies key_eq(#[trigger] a[x], b[x]) by {
        if x > 0 {
            assert(a1[x - 1] == a[x] && b1[x - 1] == b[x]);
        }
    }
}

/// Two sorted sequences with the same elements are equal, where elements
/// with equal keys are equal.
pub proof fn lemma_sorted_same<T: Keyed>(a: Seq<T>, b: Seq<T>)
    requires
        sorted_by_key(a),
        sorted_by_key(b),
        a.to_multiset() == b.to_multiset(),
        forall|i: int, j: int| 0 <= i < a.len() && 0 <= j < a.len() && key_eq(#[trigger] a[i], #[trigger] a[j]) ==> a[i] == a[j],
    ensures
        a == b,
    decreases a.len(),
{
    vstd::seq_lib::to_multiset_len(a);
    vstd::seq_lib::to_multiset_len(b);
    if a.len() > 0 {
        assert(a.contains(a[0]));
        to_multiset_contains(a, a[0]);
        to_multiset_contains(b, a[0]);
        assert(b.contains(b[0]));
        to_multiset_contains(b, b[0]);
        to_multiset_contains(a, b[0]);
        let k = choose|k: int| 0 <= k < b.len() && b[k] == a[0];
        let m = choose|m: int| 0 <= m < a.len() && a[m] == b[0];
        T::lemma_key_order(a[0], a[0], a[0]);
        T::lemma_key_order(b[0], b[0], b[0]);
        if m > 0 {
            assert(!a[m].key_lt(a[0]));
        }
        if k > 0 {
            assert(!b[k].key_lt(b[0]));
        }
        assert(key_eq(a[0], a[m]));
        assert(a[0] == b[0]);
        vstd::seq_lib::to_multiset_remove(a, 0);
        vstd::seq_lib::to_multiset_remove(b, 0);
        assert(a.remove(0) =~= a.drop_first());
        assert(b.remove(0) =~= b.drop_first());
        let a1 = a.drop_first();
        assert(a1.len() == a.len() - 1);
        assert forall|i: int, j: int| 0 <= i < a1.len() && 0 <= j < a1.len() && key_eq(#[trigger] a1[i], #[trigger] a1[j]) implies a1[i] == a1[j] by {
            assert(a1[i] == a[i + 1] && a1[j] == a[j + 1]);
        }
        lemma_sorted_same(a1, b.drop_first());
        assert(a =~= seq![a[0]] + a.drop_first());
        assert(b =~= seq![b[0]] + b.drop_first());
    } else {
        assert(b.len() == 0);
        assert(a =~= b);
    }
}

/// Mapping keeps equal multisets equal.
pub proof fn lemma_map_multiset<A, B>(s: Seq<A>, t: Seq<A>, f: spec_fn(A) -> B)
    requires
        s.to_multiset() == t.to_multiset(),
    ensures
        s.map_values(f).to_multiset() == t.map_values(f).to_multiset(),
    decreases s.len(),
{
    vstd::seq_lib::to_multiset_len(s);
    vstd::seq_lib::to_multiset_len(t);
    if s.len() == 0 {
        assert(t.len() == 0);
        assert(s.map_values(f) =~= t.map_values(f));
    } else {
        let x = s.last();
        assert(s.contains(x));
        to_multiset_contains(s, x);
        to_multiset_contains(t, x);
        let k = choose|k: int| 0 <= k < t.len() && t[k] == x;
        vstd::seq_lib::to_multiset_remove(s, s.len() - 1);
        vstd::seq_lib::to_multiset_remove(t, k);
        assert(s.remove(s.len() - 1) =~= s.drop_last());
        lemma_map_multiset(s.drop_last(), t.remove(k), f);
        assert(s.drop_last().map_values(f) =~= s.map_values(f).remove(s.len() - 1));
        assert(t.remove(k).map_values(f) =~= t.map_values(f).remove(k));
        vstd::seq_lib::to_multiset_remove(s.map_values(f), s.len() - 1);
        vstd::seq_lib::to_multiset_remove(t.map_values(f), k);
        let sm = s.map_values(f).to_multiset();
        let tm = t.map_values(f).to_multiset();
        assert(sm.remove(f(x)) == tm.remove(f(x)));
        assert(s.map_values(f).contains(f(x)));
        to_multiset_contains(s.map_values(f), f(x));
        assert(t.map_values(f)[k] == f(x));
        to_multiset_contains(t.map_values(f), f(x));
        assert(sm =~= tm) by {
            assert forall|y: B| sm.count(y) == tm.count(y) by {
                if y != f(x) {
                    assert(sm.remove(f(x)).count(y) == sm.count(y));
                    assert(tm.remove(f(x)).count(y) == tm.count(y));
                } else {
                    assert(sm.remove(f(x)).count(y) == sm.count(y) - 1);
                    assert(tm.remove(f(x)).count(y) == tm.count(y) - 1);
                }
            }
        }
    }
}

} // verus!
