//! Bounded text validation and the byte-lexicographic order of text.
//!
//! Text is reasoned about as its sequence of Unicode scalar values. Its byte
//! length is the length of its UTF-8 encoding, and text order is the order of
//! the first differing scalar value (which coincides with UTF-8 byte order).

use vstd::prelude::*;
use vstd::string::StrSliceExecFns;
use vstd::utf8::encode_utf8;

verus! {

/// A Unicode general-category `Cc` control character.
pub open spec fn is_control_char(c: char) -> bool {
    (c as u32) <= 0x1f || (0x7f <= (c as u32) && (c as u32) <= 0x9f)
}

/// A Unicode `White_Space` character, the set that `str::trim` removes.
pub open spec fn is_white_space_char(c: char) -> bool {
    let u = c as u32;
    ||| 0x09 <= u && u <= 0x0d
    ||| u == 0x20
    ||| u == 0x85
    ||| u == 0xa0
    ||| u == 0x1680
    ||| 0x2000 <= u && u <= 0x200a
    ||| u == 0x2028
    ||| u == 0x2029
    ||| u == 0x202f
    ||| u == 0x205f
    ||| u == 0x3000
}

/// Length in bytes of the UTF-8 encoding.
pub open spec fn byte_len(s: Seq<char>) -> nat {
    encode_utf8(s).len()
}

pub open spec fn has_no_control(s: Seq<char>) -> bool {
    forall|i: int| 0 <= i < s.len() ==> !is_control_char(#[trigger] s[i])
}

/// Nonempty, at most `max` UTF-8 bytes, and free of control characters.
pub open spec fn bounded_text(s: Seq<char>, max: nat) -> bool {
    &&& s.len() > 0
    &&& byte_len(s) <= max
    &&& has_no_control(s)
}

/// Text that `str::trim` leaves unchanged.
pub open spec fn is_trimmed(s: Seq<char>) -> bool {
    s.len() == 0 || (!is_white_space_char(s[0]) && !is_white_space_char(s[s.len() - 1]))
}

pub fn char_is_control(c: char) -> (r: bool)
    ensures
        r == is_control_char(c),
{
    let u = c as u32;
    u <= 0x1f || (0x7f <= u && u <= 0x9f)
}

pub fn char_is_white_space(c: char) -> (r: bool)
    ensures
        r == is_white_space_char(c),
{
    let u = c as u32;
    (0x09 <= u && u <= 0x0d) || u == 0x20 || u == 0x85 || u == 0xa0 || u == 0x1680 || (0x2000
        <= u && u <= 0x200a) || u == 0x2028 || u == 0x2029 || u == 0x202f || u == 0x205f || u
        == 0x3000
}

/// Number of UTF-8 bytes of `s`.
pub fn utf8_len(s: &str) -> (n: usize)
    ensures
        n as nat == byte_len(s@),
{
    let bytes = s.as_bytes();
    bytes.len()
}

pub fn contains_no_control(s: &str) -> (r: bool)
    ensures
        r == has_no_control(s@),
{
    let n = s.unicode_len();
    let mut i: usize = 0;
    while i < n
        invariant
            n == s@.len(),
            i <= n,
            forall|j: int| 0 <= j < i ==> !is_control_char(#[trigger] s@[j]),
        decreases n - i,
    {
        let c = s.get_char(i);
        if char_is_control(c) {
            return false;
        }
        i = i + 1;
    }
    true
}

/// Nonempty, at most `max` bytes, without control characters.
pub fn is_bounded_text(s: &str, max: usize) -> (r: bool)
    ensures
        r == bounded_text(s@, max as nat),
{
    if s.unicode_len() == 0 {
        return false;
    }
    if utf8_len(s) > max {
        return false;
    }
    contains_no_control(s)
}

pub fn is_trimmed_text(s: &str) -> (r: bool)
    ensures
        r == is_trimmed(s@),
{
    let n = s.unicode_len();
    if n == 0 {
        return true;
    }
    !char_is_white_space(s.get_char(0)) && !char_is_white_space(s.get_char(n - 1))
}

/// Three-way comparison of text: -1, 0 or 1.
pub open spec fn text_order(a: Seq<char>, b: Seq<char>) -> int
    decreases a.len(),
{
    if a.len() == 0 {
        if b.len() == 0 {
            0
        } else {
            -1
        }
    } else if b.len() == 0 {
        1
    } else if (a[0] as u32) < (b[0] as u32) {
        -1
    } else if (a[0] as u32) > (b[0] as u32) {
        1
    } else {
        text_order(a.drop_first(), b.drop_first())
    }
}

pub open spec fn text_lt(a: Seq<char>, b: Seq<char>) -> bool {
    text_order(a, b) < 0
}

pub proof fn lemma_text_order_range(a: Seq<char>, b: Seq<char>)
    ensures
        -1 <= text_order(a, b) <= 1,
    decreases a.len(),
{
    if a.len() > 0 && b.len() > 0 && (a[0] as u32) == (b[0] as u32) {
        lemma_text_order_range(a.drop_first(), b.drop_first());
    }
}

pub proof fn lemma_text_order_eq(a: Seq<char>, b: Seq<char>)
    ensures
        (text_order(a, b) == 0) == (a == b),
    decreases a.len(),
{
    if a.len() > 0 && b.len() > 0 {
        let x = a[0] as u32;
        let y = b[0] as u32;
        vstd::utf8::char_u32_cast(a[0], x);
        vstd::utf8::char_u32_cast(b[0], y);
        if x == y {
            assert(a[0] == b[0]);
            assert(text_order(a, b) == text_order(a.drop_first(), b.drop_first()));
            lemma_text_order_eq(a.drop_first(), b.drop_first());
            if a.drop_first() == b.drop_first() {
                assert(a =~= seq![a[0]] + a.drop_first());
                assert(b =~= seq![b[0]] + b.drop_first());
            }
        }
    } else if a.len() == 0 && b.len() == 0 {
        assert(a =~= b);
    }
}

pub proof fn lemma_text_order_antisymmetric(a: Seq<char>, b: Seq<char>)
    ensures
        text_order(a, b) == -text_order(b, a),
    decreases a.len(),
{
    if a.len() > 0 && b.len() > 0 && (a[0] as u32) == (b[0] as u32) {
        lemma_text_order_antisymmetric(a.drop_first(), b.drop_first());
    }
}

pub proof fn lemma_text_lt_transitive(a: Seq<char>, b: Seq<char>, c: Seq<char>)
    requires
        text_lt(a, b),
        text_lt(b, c),
    ensures
        text_lt(a, c),
    decreases a.len(),
{
    if a.len() > 0 && b.len() > 0 && c.len() > 0 {
        if (a[0] as u32) == (b[0] as u32) && (b[0] as u32) == (c[0] as u32) {
            lemma_text_lt_transitive(a.drop_first(), b.drop_first(), c.drop_first());
        }
    }
}

/// Text order is total.
pub proof fn lemma_text_total(a: Seq<char>, b: Seq<char>)
    ensures
        text_lt(a, b) || a == b || text_lt(b, a),
{
    lemma_text_order_eq(a, b);
    lemma_text_order_antisymmetric(a, b);
    lemma_text_order_range(a, b);
}

/// Compares two texts: -1 when `a` orders first, 0 when equal, 1 otherwise.
pub fn compare_text(a: &str, b: &str) -> (r: i8)
    ensures
        r as int == text_order(a@, b@),
{
    let n = a.unicode_len();
    let m = b.unicode_len();
    let mut i: usize = 0;
    assert(a@.skip(0) =~= a@);
    assert(b@.skip(0) =~= b@);
    while i < n && i < m
        invariant
            n == a@.len(),
            m == b@.len(),
            i <= n,
            i <= m,
            text_order(a@, b@) == text_order(a@.skip(i as int), b@.skip(i as int)),
        decreases n - i,
    {
        let x = a.get_char(i);
        let y = b.get_char(i);
        assert(a@.skip(i as int)[0] == x);
        assert(b@.skip(i as int)[0] == y);
        if (x as u32) < (y as u32) {
            return -1;
        }
        if (x as u32) > (y as u32) {
            return 1;
        }
        assert(a@.skip(i as int).drop_first() =~= a@.skip(i + 1));
        assert(b@.skip(i as int).drop_first() =~= b@.skip(i + 1));
        i = i + 1;
    }
    if n == m {
        0
    } else if i == n {
        -1
    } else {
        1
    }
}

/// Equality of two texts.
pub fn text_eq(a: &str, b: &str) -> (r: bool)
    ensures
        r == (a@ == b@),
{
    let c = compare_text(a, b);
    proof {
        lemma_text_order_eq(a@, b@);
    }
    c == 0
}


/// The texts of a list of strings.
pub open spec fn texts_view(v: Seq<String>) -> Seq<Seq<char>> {
    v.map_values(|s: String| s@)
}

/// Strictly increasing in text order (hence also free of duplicates).
pub open spec fn strictly_sorted(v: Seq<Seq<char>>) -> bool {
    forall|a: int, b: int| 0 <= a < b < v.len() ==> text_lt(#[trigger] v[a], #[trigger] v[b])
}

/// Whether `v` is strictly increasing in text order.
pub fn is_strictly_sorted_texts(v: &Vec<String>) -> (r: bool)
    ensures
        r == strictly_sorted(texts_view(v@)),
{
    let n = v.len();
    if n == 0 {
        return true;
    }
    let mut i: usize = 1;
    while i < n
        invariant
            n == v@.len(),
            1 <= i <= n,
            forall|a: int, b: int| 0 <= a < b < i ==> text_lt(#[trigger] v@[a]@, #[trigger] v@[b]@),
        decreases n - i,
    {
        if compare_text(v[i - 1].as_str(), v[i].as_str()) >= 0 {
            assert(!text_lt(texts_view(v@)[i - 1], texts_view(v@)[i as int]));
            return false;
        }
        assert forall|a: int, b: int| 0 <= a < b < i + 1 implies text_lt(
            #[trigger] v@[a]@,
            #[trigger] v@[b]@,
        ) by {
            if b == i && a < i - 1 {
                lemma_text_lt_transitive(v@[a]@, v@[i - 1]@, v@[b]@);
            }
        }
        i = i + 1;
    }
    true
}

/// Whether `v` holds the text `s`.
pub fn contains_text(v: &Vec<String>, s: &str) -> (r: bool)
    ensures
        r == texts_view(v@).contains(s@),
{
    let mut i: usize = 0;
    while i < v.len()
        invariant
            i <= v@.len(),
            forall|j: int| 0 <= j < i ==> v@[j]@ != s@,
        decreases v@.len() - i,
    {
        if text_eq(v[i].as_str(), s) {
            assert(texts_view(v@)[i as int] == s@);
            return true;
        }
        i = i + 1;
    }
    assert(!texts_view(v@).contains(s@)) by {
        if texts_view(v@).contains(s@) {
            let k = choose|k: int| 0 <= k < texts_view(v@).len() && texts_view(v@)[k] == s@;
            assert(v@[k]@ == s@);
        }
    }
    false
}

/// Inserts `s` into a strictly increasing list unless it is already present.
/// Returns whether the list grew.
pub fn insert_text_sorted(v: &mut Vec<String>, s: String) -> (inserted: bool)
    requires
        strictly_sorted(texts_view(old(v)@)),
    ensures
        strictly_sorted(texts_view(final(v)@)),
        texts_view(final(v)@).to_set() == texts_view(old(v)@).to_set().insert(s@),
        inserted == !texts_view(old(v)@).contains(s@),
        inserted ==> final(v)@.len() == old(v)@.len() + 1,
        !inserted ==> final(v)@ == old(v)@,
{
    let n = v.len();
    let mut k: usize = 0;
    while k < n && compare_text(v[k].as_str(), s.as_str()) < 0
        invariant
            n == v@.len(),
            k <= n,
            forall|j: int| 0 <= j < k ==> text_lt(#[trigger] v@[j]@, s@),
        decreases n - k,
    {
        k = k + 1;
    }
    if k < n && text_eq(v[k].as_str(), s.as_str()) {
        assert(texts_view(v@)[k as int] == s@);
        assert(texts_view(v@).to_set().insert(s@) =~= texts_view(v@).to_set());
        return false;
    }
    let ghost old_v = v@;
    proof {
        if k < n {
            lemma_text_total(v@[k as int]@, s@);
            lemma_text_not_lt(v@[k as int]@, s@);
        }
    }
    v.insert(k, s);
    proof {
        let nv = texts_view(v@);
        let ov = texts_view(old_v);
        assert(v@ == old_v.insert(k as int, s));
        assert forall|j: int| 0 <= j < k implies nv[j] == ov[j] by {}
        assert forall|j: int| k < j < nv.len() implies nv[j] == ov[j - 1] by {}
        assert(nv[k as int] == s@);
        assert forall|j: int| k <= j < ov.len() implies text_lt(s@, #[trigger] ov[j]) by {
            if j > k {
                lemma_text_lt_transitive(s@, ov[k as int], ov[j]);
            }
        }
        assert forall|j: int| 0 <= j < k implies text_lt(#[trigger] ov[j], s@) by {
            assert(ov[j] == old_v[j]@);
        }
        assert forall|a: int, b: int| 0 <= a < b < nv.len() implies text_lt(
            #[trigger] nv[a],
            #[trigger] nv[b],
        ) by {
            if b == k {
            } else if a == k {
                assert(nv[b] == ov[b - 1]);
            } else if a < k && b > k {
                assert(nv[b] == ov[b - 1]);
                lemma_text_lt_transitive(ov[a], s@, nv[b]);
            } else if a > k {
                assert(nv[a] == ov[a - 1]);
                assert(nv[b] == ov[b - 1]);
            }
        }
        assert(!ov.contains(s@)) by {
            if ov.contains(s@) {
                let j = choose|j: int| 0 <= j < ov.len() && ov[j] == s@;
                if j < k {
                    lemma_text_order_eq(s@, s@);
                } else {
                    if j > k {
                        lemma_text_lt_transitive(s@, ov[k as int], ov[j]);
                    }
                    lemma_text_order_eq(s@, s@);
                }
            }
        }
        assert forall|x: Seq<char>| nv.contains(x) <==> ov.contains(x) || x == s@ by {
            if nv.contains(x) {
                let j = choose|j: int| 0 <= j < nv.len() && nv[j] == x;
                if j < k {
                    assert(ov[j] == x);
                } else if j > k {
                    assert(ov[j - 1] == x);
                }
            }
            if ov.contains(x) {
                let j = choose|j: int| 0 <= j < ov.len() && ov[j] == x;
                if j < k {
                    assert(nv[j] == x);
                } else {
                    assert(nv[j + 1] == x);
                }
            }
        }
        assert(nv.to_set() =~= ov.to_set().insert(s@));
    }
    true
}

proof fn lemma_text_not_lt(a: Seq<char>, b: Seq<char>)
    requires
        !text_lt(a, b),
        a != b,
    ensures
        text_lt(b, a),
{
    lemma_text_total(a, b);
}

/// The canonical set form of a list of texts: strictly increasing, without
/// duplicates, holding exactly the texts of the input.
pub fn canonical_text_set(v: Vec<String>) -> (r: Vec<String>)
    ensures
        strictly_sorted(texts_view(r@)),
        texts_view(r@).to_set() == texts_view(v@).to_set(),
{
    let mut out: Vec<String> = Vec::new();
    let n = v.len();
    let mut i: usize = 0;
    while i < n
        invariant
            n == v@.len(),
            i <= n,
            strictly_sorted(texts_view(out@)),
            texts_view(out@).to_set() == texts_view(v@.take(i as int)).to_set(),
        decreases n - i,
    {
        let s = v[i].clone();
        insert_text_sorted(&mut out, s);
        assert(texts_view(v@.take(i + 1)) =~= texts_view(v@.take(i as int)).push(v@[i as int]@));
        proof {
            texts_view(v@.take(i as int)).lemma_push_to_set_commute(v@[i as int]@);
        }
        i = i + 1;
    }
    assert(v@.take(n as int) =~= v@);
    out
}


/// Element-wise text equality of two lists.
pub fn texts_equal(a: &Vec<String>, b: &Vec<String>) -> (r: bool)
    ensures
        r == (texts_view(a@) == texts_view(b@)),
{
    if a.len() != b.len() {
        return false;
    }
    let mut i: usize = 0;
    while i < a.len()
        invariant
            a@.len() == b@.len(),
            i <= a@.len(),
            forall|j: int| 0 <= j < i ==> a@[j]@ == b@[j]@,
        decreases a@.len() - i,
    {
        if a[i] != b[i] {
            assert(texts_view(a@)[i as int] != texts_view(b@)[i as int]);
            return false;
        }
        i = i + 1;
    }
    assert(texts_view(a@) =~= texts_view(b@));
    true
}


pub proof fn lemma_increasing_lower(f: Seq<int>, i: int)
    requires
        0 <= i < f.len(),
        forall|k: int| 0 <= k < f.len() ==> 0 <= #[trigger] f[k],
        forall|x: int, y: int| 0 <= x < y < f.len() ==> #[trigger] f[x] < #[trigger] f[y],
    ensures
        f[i] >= i,
    decreases i,
{
    if i > 0 {
        lemma_increasing_lower(f, i - 1);
        assert(f[i - 1] < f[i]);
    }
}

pub proof fn lemma_increasing_upper(f: Seq<int>, i: int)
    requires
        0 <= i < f.len(),
        forall|k: int| 0 <= k < f.len() ==> #[trigger] f[k] < f.len(),
        forall|x: int, y: int| 0 <= x < y < f.len() ==> #[trigger] f[x] < #[trigger] f[y],
    ensures
        f[i] <= i,
    decreases f.len() - i,
{
    if i < f.len() - 1 {
        lemma_increasing_upper(f, i + 1);
        assert(f[i] < f[i + 1]);
    }
}

/// Two strictly increasing lists of equal length, one contained in the other,
/// are equal.
pub proof fn lemma_sorted_subset_eq(a: Seq<Seq<char>>, b: Seq<Seq<char>>)
    requires
        strictly_sorted(a),
        strictly_sorted(b),
        a.len() == b.len(),
        forall|i: int| 0 <= i < a.len() ==> b.contains(#[trigger] a[i]),
    ensures
        a == b,
{
    let n = a.len() as int;
    let f = Seq::new(a.len(), |i: int| choose|k: int| 0 <= k < n && b[k] == a[i]);
    assert forall|i: int| 0 <= i < n implies 0 <= #[trigger] f[i] < n && b[f[i]] == a[i] by {
        assert(b.contains(a[i]));
    }
    assert forall|x: int, y: int| 0 <= x < y < n implies #[trigger] f[x] < #[trigger] f[y] by {
        assert(0 <= f[x] < n && b[f[x]] == a[x]);
        assert(0 <= f[y] < n && b[f[y]] == a[y]);
        assert(text_lt(a[x], a[y]));
        if f[y] < f[x] {
            assert(text_lt(b[f[y]], b[f[x]]));
            lemma_text_lt_asymmetric(a[x], a[y]);
        } else if f[y] == f[x] {
            lemma_text_order_eq(a[x], a[x]);
        }
    }
    assert forall|i: int| 0 <= i < n implies a[i] == b[i] by {
        assert forall|k: int| 0 <= k < f.len() implies 0 <= #[trigger] f[k] && f[k] < f.len() by {
            assert(0 <= f[k] < n && b[f[k]] == a[k]);
        }
        lemma_increasing_lower(f, i);
        lemma_increasing_upper(f, i);
        assert(0 <= f[i] < n && b[f[i]] == a[i]);
    }
    assert(a =~= b);
}

/// Text order is asymmetric.
pub proof fn lemma_text_lt_asymmetric(a: Seq<char>, b: Seq<char>)
    requires
        text_lt(a, b),
    ensures
        !text_lt(b, a),
{
    lemma_text_order_antisymmetric(a, b);
}

} // verus!
