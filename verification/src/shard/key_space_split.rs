use vstd::prelude::*;
use crate::codec::{
    entries_sorted, find_last_le, find_last_lt, has_le_key, has_lt_key, key_equiv, last_le_idx,
    last_lt_idx, lemma_exists_last_le, lemma_insert_keeps_le, lemma_key_laws, lemma_last_le_at,
    lemma_last_lt_at, lemma_none_equivalent, lemma_prefix_le, lemma_sorted_insert_keeps, Key,
};
use crate::request::Sender;
use crate::shard::Shard;
use crate::util::{Either, Error, ShardError};

verus! {

/// An ordered partition map from a boundary key to the sender that
/// governs `[boundary, next_boundary)`, plus one distinguished begin
/// sender for every key below the smallest boundary.
pub struct KeySpaceSpilt<K: Key, S: Sender> {
    inner: Vec<(K, S)>,
    begin: Option<S>,
}

impl<K: Key, S: Sender> KeySpaceSpilt<K, S> {
    /// The recorded boundaries and their senders, ascending by key.
    pub closed spec fn boundaries(&self) -> Seq<(K, S)> {
        self.inner@
    }

    /// The sender of the open-ended lowest range, if one was assigned.
    pub closed spec fn begin_spec(&self) -> Option<S> {
        self.begin
    }

    /// A boundary equivalent to `k` is already recorded.
    pub open spec fn has_boundary(&self, k: K) -> bool {
        exists|i: int|
            0 <= i < self.boundaries().len() && #[trigger] key_equiv(self.boundaries()[i].0, k)
    }

    /// Some recorded boundary lies at or below `k`.
    pub open spec fn governed(&self, k: K) -> bool {
        has_le_key(self.boundaries(), k)
    }

    /// The sender that governs `k`: the one recorded at the nearest
    /// boundary at or below `k`, or the begin sender when every
    /// boundary lies above `k`.
    pub open spec fn route_spec(&self, k: K) -> Option<S> {
        if self.governed(k) {
            Some(self.boundaries()[last_le_idx(self.boundaries(), k)].1)
        } else {
            self.begin_spec()
        }
    }

    pub fn new() -> (r: Self)
        ensures
            r.boundaries() =~= Seq::<(K, S)>::empty(),
            r.begin_spec() is None,
            entries_sorted(r.boundaries()),
    {
        Self { inner: Vec::new(), begin: None }
    }

    /// The greatest recorded boundary strictly below `key`, copied out.
    pub fn left_key(&self, key: &K) -> (r: Option<K>)
        requires
            entries_sorted(self.boundaries()),
        ensures
            match r {
                Some(x) => has_lt_key(self.boundaries(), *key) && x@ == self.boundaries()[
                    last_lt_idx(self.boundaries(), *key)
                ].0@,
                None => !has_lt_key(self.boundaries(), *key),
            },
    {
        match find_last_lt(&self.inner, key) {
            Some(i) => {
                proof {
                    lemma_last_lt_at(self.inner@, *key, i as int);
                }
                Some(self.inner[i].0.to_owned())
            }
            None => None,
        }
    }

    /// The sender at the greatest recorded boundary at or below `key`.
    pub fn left_value_include(&self, key: &K) -> (r: Option<&S>)
        requires
            entries_sorted(self.boundaries()),
        ensures
            match r {
                Some(v) => self.governed(*key) && *v == self.boundaries()[
                    last_le_idx(self.boundaries(), *key)
                ].1,
                None => !self.governed(*key),
            },
    {
        match find_last_le(&self.inner, key) {
            Some(i) => {
                proof {
                    lemma_last_le_at(self.inner@, *key, i as int);
                }
                Some(&self.inner[i].1)
            }
            None => None,
        }
    }
}

impl<K: Key, S: Sender> KeySpaceSpilt<K, S> {
    /// Like `key2node`, but hands the governing sender out mutably,
    /// so that a caller can send through it.
    pub fn key2node_mut(&mut self, key: &K) -> (r: &mut S)
        requires
            entries_sorted(old(self).boundaries()),
            old(self).governed(*key) || old(self).begin_spec() is Some,
        ensures
            Some(*r) == old(self).route_spec(*key),
            entries_sorted(final(self).boundaries()),
            old(self).governed(*key) ==> final(self).boundaries() == old(
                self,
            ).boundaries().update(
                last_le_idx(old(self).boundaries(), *key),
                (
                    old(self).boundaries()[last_le_idx(old(self).boundaries(), *key)].0,
                    *final(r),
                ),
            ) && final(self).begin_spec() == old(self).begin_spec(),
            !old(self).governed(*key) ==> final(self).boundaries() == old(self).boundaries()
                && final(self).begin_spec() == Some(*final(r)),
    {
        match find_last_le(&self.inner, key) {
            Some(i) => {
                proof {
                    lemma_last_le_at(self.inner@, *key, i as int);
                }
                let entry = vstd::std_specs::vec::vec_index_mut(&mut self.inner, i);
                &mut entry.1
            }
            None => self.begin.as_mut().unwrap(),
        }
    }
}

impl<K: Key, S: Sender> Shard for KeySpaceSpilt<K, S> {
    type K = K;
    type S = S;

    open spec fn inv(&self) -> bool {
        entries_sorted(self.boundaries())
    }

    open spec fn covers(&self, key: K) -> bool {
        self.governed(key) || self.begin_spec() is Some
    }

    fn split(&mut self, key: K, sender: Either<S>) -> (r: Result<(), Error>)
        ensures
            old(self).has_boundary(key) == (r is Err),
            r is Err ==> (r matches Err(Error::ShardError(ShardError::SplitError(_)))
                && *final(self) == *old(self)),
            r is Ok && sender is Right ==> {
                let p = if has_le_key(old(self).boundaries(), key) {
                    last_le_idx(old(self).boundaries(), key) + 1
                } else {
                    0
                };
                final(self).boundaries() == old(self).boundaries().insert(
                    p,
                    (key, sender.get_spec()),
                ) && final(self).begin_spec() == old(self).begin_spec()
            },
            r is Ok && sender is Left && has_lt_key(old(self).boundaries(), key) ==> {
                let l = last_lt_idx(old(self).boundaries(), key);
                final(self).boundaries() == old(self).boundaries().update(
                    l,
                    (old(self).boundaries()[l].0, sender.get_spec()),
                ).insert(l + 1, (key, old(self).boundaries()[l].1)) && final(self).begin_spec()
                    == old(self).begin_spec()
            },
            r is Ok && sender is Left && !has_lt_key(old(self).boundaries(), key) ==> {
                final(self).boundaries() == old(self).boundaries() && final(self).begin_spec()
                    == Some(sender.get_spec())
            },
            forall|q: K| #[trigger] old(self).covers(q) ==> final(self).covers(q),
    {
        let n = self.inner.len();
        // reject a boundary that is already recorded
        let last_le = find_last_le(&self.inner, &key);
        let ghost old_b = self.inner@;
        if let Some(i) = last_le {
            if key.key_le(&self.inner[i].0) {
                proof {
                    assert(key_equiv(self.inner@[i as int].0, key));
                }
                return Err(Error::ShardError(ShardError::SplitError(key.to_string())));
            }
        }
        proof {
            match last_le {
                Some(i) => lemma_none_equivalent(old_b, key, i as int),
                None => {
                    assert forall|q: int| 0 <= q < old_b.len() implies !key_equiv(
                        #[trigger] old_b[q].0,
                        key,
                    ) by {}
                }
            }
        }
        match sender {
            Either::Left(s) => {
                match find_last_lt(&self.inner, &key) {
                    Some(l) => {
                        proof {
                            assert(l < n);
                            lemma_last_lt_at(old_b, key, l as int);
                        }
                        // the sender below moves up to the new boundary;
                        // the new sender takes over its old start
                        let (k_l, s_old) = self.inner.remove(l);
                        self.inner.insert(l, (k_l, s));
                        self.inner.insert(l + 1, (key, s_old));
                        proof {
                            let li = l as int;
                            let a = sender.get_spec();
                            lemma_remove_insert_is_update(old_b, li, (old_b[li].0, a));
                            assert(old_b.remove(li).insert(li, (old_b[li].0, a)) == old_b.update(
                                li,
                                (old_b[li].0, a),
                            ));
                            lemma_left_result_sorted(old_b, key, a, old_b[li].1, li);
                            // no key that was governed loses its governor
                            let u = old_b.update(li, (old_b[li].0, a));
                            assert forall|q: K| #[trigger] old(self).covers(q) implies self.covers(
                                q,
                            ) by {
                                if has_le_key(old_b, q) {
                                    let w = choose|i: int|
                                        0 <= i < old_b.len() && #[trigger] old_b[i].0.le_spec(&q);
                                    assert(u[w].0 == old_b[w].0);
                                    assert(u[w].0.le_spec(&q));
                                    lemma_insert_keeps_le(u, li + 1, (key, old_b[li].1), q);
                                }
                            }
                        }
                        Ok(())
                    }
                    None => {
                        self.begin = Some(s);
                        Ok(())
                    }
                }
            }
            Either::Right(s) => {
                let p = match last_le {
                    Some(i) => {
                        proof {
                            assert(i < n);
                        }
                        i + 1
                    }
                    None => 0,
                };
                self.inner.insert(p, (key, s));
                proof {
                    if let Some(i) = last_le {
                        lemma_last_le_at(old_b, key, i as int);
                        lemma_prefix_le(old_b, key, i as int);
                    }
                    lemma_sorted_insert_keeps(old_b, key, sender.get_spec(), p as int);
                    // no key that was governed loses its governor
                    assert forall|q: K| #[trigger] old(self).covers(q) implies self.covers(q) by {
                        if has_le_key(old_b, q) {
                            lemma_insert_keeps_le(old_b, p as int, (key, sender.get_spec()), q);
                        }
                    }
                }
                Ok(())
            }
        }
    }

    fn key2node(&self, key: &K) -> (r: &S)
        ensures
            Some(*r) == self.route_spec(*key),
    {
        match self.left_value_include(key) {
            Some(sender) => sender,
            None => self.begin.as_ref().unwrap(),
        }
    }
}

/// Law: in a well-formed partition map, every governed key has exactly
/// one governing boundary — the nearest recorded boundary at or below
/// the key — and `route_spec` answers with that boundary's sender.
pub proof fn lemma_one_governor<K: Key, S: Sender>(m: &KeySpaceSpilt<K, S>, k: K)
    requires
        entries_sorted(m.boundaries()),
        m.governed(k),
    ensures
        ({
            let b = m.boundaries();
            let i = last_le_idx(b, k);
            0 <= i < b.len() && b[i].0.le_spec(&k) && (forall|j: int|
                0 <= j < b.len() && (#[trigger] b[j].0.le_spec(&k)) ==> b[j].0.le_spec(&b[i].0))
                && (forall|j: int|
                0 <= j < b.len() && (#[trigger] b[j].0.le_spec(&k)) && (forall|q: int|
                    j < q < b.len() ==> !(#[trigger] b[q].0.le_spec(&k))) ==> j == i)
                && m.route_spec(k) == Some(b[i].1)
        }),
{
    let b = m.boundaries();
    lemma_exists_last_le(b, k);
    lemma_key_laws::<K>();
    let i = last_le_idx(b, k);
    assert forall|j: int|
        0 <= j < b.len() && (#[trigger] b[j].0.le_spec(&k)) implies b[j].0.le_spec(
        &b[i].0,
    ) by {
        if j < i {
            assert(b[j].0.le_spec(&b[i].0));
        } else if j == i {
            assert(b[i].0.le_spec(&b[i].0));
        } else {
            assert(!b[j].0.le_spec(&k));
        }
    }
    assert forall|j: int|
        0 <= j < b.len() && (#[trigger] b[j].0.le_spec(&k)) && (forall|q: int|
            j < q < b.len() ==> !(#[trigger] b[q].0.le_spec(&k))) implies j == i by {
        lemma_last_le_at(b, k, j);
    }
}

/// Removing an entry and putting another back in its place is an
/// update of that place.
proof fn lemma_remove_insert_is_update<T>(s: Seq<T>, l: int, x: T)
    requires
        0 <= l < s.len(),
    ensures
        s.remove(l).insert(l, x) =~= s.update(l, x),
{
    s.remove_ensures(l);
    s.remove(l).insert_ensures(l, x);
}

/// The result of a left-sided split is sorted.
proof fn lemma_left_result_sorted<K: Key, S>(s: Seq<(K, S)>, key: K, a: S, b: S, l: int)
    requires
        entries_sorted(s),
        0 <= l < s.len(),
        forall|q: int| 0 <= q < s.len() ==> !key_equiv(#[trigger] s[q].0, key),
        !key.le_spec(&s[l].0),
        forall|q: int| l < q < s.len() ==> #[trigger] key.le_spec(&s[q].0),
    ensures
        entries_sorted(s.update(l, (s[l].0, a)).insert(l + 1, (key, b))),
{
    let t = s.update(l, (s[l].0, a)).insert(l + 1, (key, b));
    s.update(l, (s[l].0, a)).insert_ensures(l + 1, (key, b));
    assert forall|i: int, j: int|
        0 <= i < j < t.len() implies (#[trigger] t[i].0.le_spec(&t[j].0)) && !t[j].0.le_spec(
        &t[i].0,
    ) by {
        lemma_split_left_sorted(s, key, a, b, l, i, j);
    }
}

/// Index-level case analysis showing that a left-sided split keeps the
/// boundary sequence sorted: the entry at `l` keeps its key, and the
/// new boundary goes right after it.
#[verifier::rlimit(50)]
proof fn lemma_split_left_sorted<K: Key, S>(
    s: Seq<(K, S)>,
    key: K,
    a: S,
    b: S,
    l: int,
    i: int,
    j: int,
)
    requires
        entries_sorted(s),
        0 <= l < s.len(),
        forall|q: int| 0 <= q < s.len() ==> !key_equiv(#[trigger] s[q].0, key),
        !key.le_spec(&s[l].0),
        forall|q: int| l < q < s.len() ==> #[trigger] key.le_spec(&s[q].0),
        0 <= i < j < s.len() + 1,
    ensures
        ({
            let t = s.update(l, (s[l].0, a)).insert(l + 1, (key, b));
            t[i].0.le_spec(&t[j].0) && !t[j].0.le_spec(&t[i].0)
        }),
{
    lemma_key_laws::<K>();
    let u = s.update(l, (s[l].0, a));
    let e = (key, b);
    u.insert_ensures(l + 1, e);
    let t = u.insert(l + 1, e);
    assert forall|q: int| 0 <= q < s.len() implies #[trigger] u[q].0 == s[q].0 by {
        if q == l {
        }
    }
    if j <= l {
        assert(t[i].0 == s[i].0 && t[j].0 == s[j].0);
        assert(s[i].0.le_spec(&s[j].0) && !s[j].0.le_spec(&s[i].0));
    } else if i <= l && j == l + 1 {
        assert(t[i].0 == s[i].0 && t[j].0 == key);
        // s[i].0 lies at or below s[l].0, which lies strictly below key
        assert(s[l].0.le_spec(&key));
        if i < l {
            assert(s[i].0.le_spec(&s[l].0));
        }
        assert(s[i].0.le_spec(&key));
        assert(!key.le_spec(&s[i].0));
    } else if i <= l && j > l + 1 {
        assert(t[i].0 == s[i].0 && t[j].0 == s[j - 1].0);
        assert(i < j - 1);
        assert(s[i].0.le_spec(&s[j - 1].0) && !s[j - 1].0.le_spec(&s[i].0));
    } else if i == l + 1 {
        assert(t[i].0 == key && t[j].0 == s[j - 1].0);
        assert(key.le_spec(&s[j - 1].0));
        assert(!key_equiv(s[j - 1].0, key));
        assert(!s[j - 1].0.le_spec(&key));
    } else {
        assert(t[i].0 == s[i - 1].0 && t[j].0 == s[j - 1].0);
        assert(l < i - 1 < j - 1);
        assert(s[i - 1].0.le_spec(&s[j - 1].0) && !s[j - 1].0.le_spec(&s[i - 1].0));
    }
}

} // verus!
