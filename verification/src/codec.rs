pub mod byte;

use vstd::prelude::*;

verus! {

/// An ordered key. `le_spec` is the order the router and the storage
/// engine sort by; it must be total and transitive, and it may only
/// depend on the key's view, so that an owned copy of a key compares
/// exactly like the key it was copied from.
pub trait Key: View + Sized {
    /// The "at most" relation between two keys.
    spec fn le_spec(&self, other: &Self) -> bool;

    /// Any two keys are related one way or the other.
    proof fn lemma_le_total(a: &Self, b: &Self)
        ensures
            a.le_spec(b) || b.le_spec(a),
    ;

    /// The relation is transitive.
    proof fn lemma_le_trans(a: &Self, b: &Self, c: &Self)
        requires
            a.le_spec(b),
            b.le_spec(c),
        ensures
            a.le_spec(c),
    ;

    /// Keys with equal views compare alike, on either side.
    proof fn lemma_le_view(a: &Self, b: &Self, c: &Self)
        requires
            a@ == b@,
        ensures
            a.le_spec(c) == b.le_spec(c),
            c.le_spec(a) == c.le_spec(b),
    ;

    /// Decides `le_spec`.
    fn key_le(&self, other: &Self) -> (r: bool)
        ensures
            r == self.le_spec(other),
    ;

    /// An owned copy with the same view.
    fn to_owned(&self) -> (r: Self)
        ensures
            r@ == self@,
    ;

    /// A rendering for error messages; nothing is promised of it.
    fn to_string(&self) -> String;
}

/// A stored value: it can be copied out with its view kept, and
/// rendered for error messages.
pub trait Value: View + Sized {
    /// An owned copy with the same view.
    fn to_owned(&self) -> (r: Self)
        ensures
            r@ == self@,
    ;

    /// A rendering for error messages; nothing is promised of it.
    fn to_string(&self) -> String;
}

impl Key for i32 {
    open spec fn le_spec(&self, other: &Self) -> bool {
        *self <= *other
    }

    proof fn lemma_le_total(a: &Self, b: &Self) {
    }

    proof fn lemma_le_trans(a: &Self, b: &Self, c: &Self) {
    }

    proof fn lemma_le_view(a: &Self, b: &Self, c: &Self) {
    }

    fn key_le(&self, other: &Self) -> (r: bool) {
        *self <= *other
    }

    fn to_owned(&self) -> (r: Self) {
        *self
    }

    fn to_string(&self) -> String {
        decimal_string_i32(*self)
    }
}

impl Value for i32 {
    fn to_owned(&self) -> (r: Self) {
        *self
    }

    fn to_string(&self) -> String {
        decimal_string_i32(*self)
    }
}

/// Two keys at the same position of the order.
pub open spec fn key_equiv<K: Key>(a: K, b: K) -> bool {
    a.le_spec(&b) && b.le_spec(&a)
}

/// The keys of an entry sequence are strictly ascending.
pub open spec fn entries_sorted<K: Key, V>(s: Seq<(K, V)>) -> bool {
    forall|i: int, j: int|
        0 <= i < j < s.len() ==> (#[trigger] s[i].0.le_spec(&s[j].0)) && !s[j].0.le_spec(&s[i].0)
}

/// The laws a key type owes, in quantified form, so that proofs over
/// whole sequences of keys can instantiate them freely.
pub proof fn lemma_key_laws<K: Key>()
    ensures
        forall|a: K, b: K| #[trigger] a.le_spec(&b) || #[trigger] b.le_spec(&a),
        forall|a: K, b: K, c: K|
            #[trigger] a.le_spec(&b) && #[trigger] b.le_spec(&c) ==> a.le_spec(&c),
{
    assert forall|a: K, b: K| #[trigger] a.le_spec(&b) || #[trigger] b.le_spec(&a) by {
        K::lemma_le_total(&a, &b);
    }
    assert forall|a: K, b: K, c: K|
        #[trigger] a.le_spec(&b) && #[trigger] b.le_spec(&c) implies a.le_spec(&c) by {
        K::lemma_le_trans(&a, &b, &c);
    }
}

/// Some entry's key lies at or below `k`.
pub open spec fn has_le_key<K: Key, V>(s: Seq<(K, V)>, k: K) -> bool {
    exists|i: int| 0 <= i < s.len() && #[trigger] s[i].0.le_spec(&k)
}

/// The last position whose key lies at or below `k`.
pub open spec fn last_le_idx<K: Key, V>(s: Seq<(K, V)>, k: K) -> int {
    choose|i: int|
        0 <= i < s.len() && #[trigger] s[i].0.le_spec(&k) && forall|j: int|
            i < j < s.len() ==> !(#[trigger] s[j].0.le_spec(&k))
}

/// Some entry's key lies strictly below `k`.
pub open spec fn has_lt_key<K: Key, V>(s: Seq<(K, V)>, k: K) -> bool {
    exists|i: int| 0 <= i < s.len() && !(#[trigger] k.le_spec(&s[i].0))
}

/// The last position whose key lies strictly below `k`.
pub open spec fn last_lt_idx<K: Key, V>(s: Seq<(K, V)>, k: K) -> int {
    choose|i: int|
        0 <= i < s.len() && !(#[trigger] k.le_spec(&s[i].0)) && forall|j: int|
            i < j < s.len() ==> #[trigger] k.le_spec(&s[j].0)
}

/// A position that lies at or below `k` and is followed only by
/// positions above `k` is the unique `last_le_idx`.
pub proof fn lemma_last_le_at<K: Key, V>(s: Seq<(K, V)>, k: K, i: int)
    requires
        0 <= i < s.len(),
        s[i].0.le_spec(&k),
        forall|j: int| i < j < s.len() ==> !(#[trigger] s[j].0.le_spec(&k)),
    ensures
        has_le_key(s, k),
        last_le_idx(s, k) == i,
{
    assert(has_le_key(s, k));
    let c = last_le_idx(s, k);
    if c != i {
        if c < i {
            assert(!s[i].0.le_spec(&k));
        } else {
            assert(!s[c].0.le_spec(&k));
        }
    }
}

/// The same, for the strictly-below search.
pub proof fn lemma_last_lt_at<K: Key, V>(s: Seq<(K, V)>, k: K, i: int)
    requires
        0 <= i < s.len(),
        !k.le_spec(&s[i].0),
        forall|j: int| i < j < s.len() ==> #[trigger] k.le_spec(&s[j].0),
    ensures
        has_lt_key(s, k),
        last_lt_idx(s, k) == i,
{
    assert(has_lt_key(s, k));
    let c = last_lt_idx(s, k);
    if c != i {
        if c < i {
            assert(k.le_spec(&s[i].0));
        } else {
            assert(k.le_spec(&s[c].0));
        }
    }
}

/// A sequence with some key at or below `k` has a last such position,
/// and `last_le_idx` names it.
pub proof fn lemma_exists_last_le<K: Key, V>(s: Seq<(K, V)>, k: K)
    requires
        has_le_key(s, k),
    ensures
        0 <= last_le_idx(s, k) < s.len(),
        s[last_le_idx(s, k)].0.le_spec(&k),
        forall|j: int| last_le_idx(s, k) < j < s.len() ==> !(#[trigger] s[j].0.le_spec(&k)),
    decreases s.len(),
{
    let n = s.len() as int;
    if s[n - 1].0.le_spec(&k) {
        lemma_last_le_at(s, k, n - 1);
    } else {
        let s2 = s.drop_last();
        let w = choose|i: int| 0 <= i < s.len() && #[trigger] s[i].0.le_spec(&k);
        assert(w < n - 1);
        assert(s2[w] == s[w]);
        assert(s2[w].0.le_spec(&k));
        lemma_exists_last_le(s2, k);
        let i = last_le_idx(s2, k);
        assert(s[i] == s2[i]);
        assert forall|j: int| i < j < n implies !(#[trigger] s[j].0.le_spec(&k)) by {
            if j < n - 1 {
                assert(s[j] == s2[j]);
            }
        }
        lemma_last_le_at(s, k, i);
    }
}

/// A key with some entry at or below it keeps one when a new entry is
/// inserted anywhere.
pub(crate) proof fn lemma_insert_keeps_le<K: Key, V>(s: Seq<(K, V)>, p: int, e: (K, V), q: K)
    requires
        0 <= p <= s.len(),
        has_le_key(s, q),
    ensures
        has_le_key(s.insert(p, e), q),
{
    s.insert_ensures(p, e);
    let t = s.insert(p, e);
    let w = choose|i: int| 0 <= i < s.len() && #[trigger] s[i].0.le_spec(&q);
    if w < p {
        assert(t[w] == s[w]);
        assert(t[w].0.le_spec(&q));
    } else {
        assert(t[w + 1] == s[w]);
        assert(t[w + 1].0.le_spec(&q));
    }
}

/// In a sorted entry sequence, at most one position holds a key
/// equivalent to `k`.
pub proof fn lemma_sorted_key_unique<K: Key, V>(s: Seq<(K, V)>, k: K)
    requires
        entries_sorted(s),
    ensures
        forall|i: int, j: int|
            0 <= i < s.len() && 0 <= j < s.len() && #[trigger] key_equiv(s[i].0, k)
                && #[trigger] key_equiv(s[j].0, k) ==> i == j,
{
    lemma_key_laws::<K>();
}

/// Finds the last entry whose key lies at or below `k`, scanning from
/// the top end.
pub(crate) fn find_last_le<K: Key, V>(s: &Vec<(K, V)>, k: &K) -> (r: Option<usize>)
    ensures
        match r {
            Some(i) => i < s@.len() && s@[i as int].0.le_spec(k) && forall|j: int|
                i < j < s@.len() ==> !(#[trigger] s@[j].0.le_spec(k)),
            None => forall|j: int| 0 <= j < s@.len() ==> !(#[trigger] s@[j].0.le_spec(k)),
        },
{
    let mut idx = s.len();
    while idx > 0
        invariant
            idx <= s@.len(),
            forall|j: int| idx <= j < s@.len() ==> !(#[trigger] s@[j].0.le_spec(k)),
        decreases idx,
    {
        idx = idx - 1;
        if s[idx].0.key_le(k) {
            return Some(idx);
        }
    }
    None
}

/// Finds the last entry whose key lies strictly below `k`, scanning
/// from the top end.
pub(crate) fn find_last_lt<K: Key, V>(s: &Vec<(K, V)>, k: &K) -> (r: Option<usize>)
    ensures
        match r {
            Some(i) => i < s@.len() && !k.le_spec(&s@[i as int].0) && forall|j: int|
                i < j < s@.len() ==> #[trigger] k.le_spec(&s@[j].0),
            None => forall|j: int| 0 <= j < s@.len() ==> #[trigger] k.le_spec(&s@[j].0),
        },
{
    let mut idx = s.len();
    while idx > 0
        invariant
            idx <= s@.len(),
            forall|j: int| idx <= j < s@.len() ==> #[trigger] k.le_spec(&s@[j].0),
        decreases idx,
    {
        idx = idx - 1;
        if !k.key_le(&s[idx].0) {
            return Some(idx);
        }
    }
    None
}

/// Relies on i32's std Display: the decimal rendering of an integer is
/// never empty.
#[verifier::external_body]
fn decimal_string_i32(v: i32) -> (r: String)
    ensures
        r@.len() >= 1,
{
    format!("{}", v)
}

/// A boundary at or below `key` that is not equivalent to it, with
/// everything above it strictly above `key`, means no recorded
/// boundary is equivalent to `key`.
pub(crate) proof fn lemma_none_equivalent<K: Key, S>(s: Seq<(K, S)>, key: K, i: int)
    requires
        entries_sorted(s),
        0 <= i < s.len(),
        !key.le_spec(&s[i].0),
        forall|j: int| i < j < s.len() ==> !(#[trigger] s[j].0.le_spec(&key)),
    ensures
        forall|q: int| 0 <= q < s.len() ==> !key_equiv(#[trigger] s[q].0, key),
{
    lemma_key_laws::<K>();
    assert forall|q: int| 0 <= q < s.len() implies !key_equiv(#[trigger] s[q].0, key) by {
        if key_equiv(s[q].0, key) {
            if q < i {
                assert(s[q].0.le_spec(&s[i].0));
            }
        }
    }
}

/// Everything at or before a boundary that lies at or below `key`
/// lies at or below `key` as well.
pub(crate) proof fn lemma_prefix_le<K: Key, S>(s: Seq<(K, S)>, key: K, i: int)
    requires
        entries_sorted(s),
        0 <= i < s.len(),
        s[i].0.le_spec(&key),
    ensures
        forall|q: int| 0 <= q <= i ==> #[trigger] s[q].0.le_spec(&key),
{
    lemma_key_laws::<K>();
    assert forall|q: int| 0 <= q <= i implies #[trigger] s[q].0.le_spec(&key) by {
        if q < i {
            assert(s[q].0.le_spec(&s[i].0));
        }
    }
}

/// Inserting a fresh key at its ordered position keeps the entry
/// sequence sorted.
pub(crate) proof fn lemma_sorted_insert_keeps<K: Key, S>(s: Seq<(K, S)>, key: K, v: S, p: int)
    requires
        entries_sorted(s),
        0 <= p <= s.len(),
        forall|q: int| 0 <= q < s.len() ==> !key_equiv(#[trigger] s[q].0, key),
        forall|q: int| 0 <= q < p ==> #[trigger] s[q].0.le_spec(&key),
        forall|q: int| p <= q < s.len() ==> !(#[trigger] s[q].0.le_spec(&key)),
    ensures
        entries_sorted(s.insert(p, (key, v))),
{
    let t = s.insert(p, (key, v));
    s.insert_ensures(p, (key, v));
    assert forall|i: int, j: int|
        0 <= i < j < t.len() implies (#[trigger] t[i].0.le_spec(&t[j].0)) && !t[j].0.le_spec(
        &t[i].0,
    ) by {
        lemma_sorted_insert_pairwise(s, key, v, p, i, j);
    }
}

/// Index-level case analysis behind `lemma_sorted_insert_keeps`.
#[verifier::rlimit(50)]
proof fn lemma_sorted_insert_pairwise<K: Key, S>(
    s: Seq<(K, S)>,
    key: K,
    v: S,
    p: int,
    i: int,
    j: int,
)
    requires
        entries_sorted(s),
        0 <= p <= s.len(),
        forall|q: int| 0 <= q < s.len() ==> !key_equiv(#[trigger] s[q].0, key),
        forall|q: int| 0 <= q < p ==> #[trigger] s[q].0.le_spec(&key),
        forall|q: int| p <= q < s.len() ==> !(#[trigger] s[q].0.le_spec(&key)),
        0 <= i < j < s.len() + 1,
    ensures
        ({
            let t = s.insert(p, (key, v));
            t[i].0.le_spec(&t[j].0) && !t[j].0.le_spec(&t[i].0)
        }),
{
    lemma_key_laws::<K>();
    let e = (key, v);
    s.insert_ensures(p, e);
    let t = s.insert(p, e);
    if j < p {
        assert(t[i] == s[i] && t[j] == s[j]);
    } else if i < p && j == p {
        assert(t[i] == s[i] && t[j].0 == key);
        assert(s[i].0.le_spec(&key));
        assert(!key_equiv(s[i].0, key));
    } else if i < p && j > p {
        assert(t[i] == s[i] && t[j] == s[j - 1]);
        // s[i].0 <= key and key lies strictly below s[j - 1].0
        assert(!s[j - 1].0.le_spec(&key));
        assert(key.le_spec(&s[j - 1].0));
    } else if i == p {
        assert(t[i].0 == key && t[j] == s[j - 1]);
        assert(!s[j - 1].0.le_spec(&key));
        assert(key.le_spec(&s[j - 1].0));
    } else {
        assert(t[i] == s[i - 1] && t[j] == s[j - 1]);
    }
}

} // verus!
