use vstd::prelude::*;
use crate::codec::{
    entries_sorted, find_last_le, has_le_key, key_equiv, last_le_idx, lemma_key_laws,
    lemma_last_le_at, lemma_none_equivalent, lemma_prefix_le, lemma_sorted_insert_keeps,
    lemma_sorted_key_unique, Key, Value,
};
use crate::storage::Engine;
use crate::util::Error;

verus! {

/// An in-memory storage engine: a sorted association of keys to
/// values, the thin stand-in for a real storage backend.
pub struct InMemEngine<K: Key, V: Value> {
    inner: Vec<(K, V)>,
}

impl<K: Key, V: Value> InMemEngine<K, V> {
    /// The stored entries, ascending by key.
    pub closed spec fn entries_spec(&self) -> Seq<(K, V)> {
        self.inner@
    }

    /// A value is stored under a key equivalent to `k`.
    pub open spec fn has_key(&self, k: K) -> bool {
        exists|i: int|
            0 <= i < self.entries_spec().len() && #[trigger] key_equiv(self.entries_spec()[i].0, k)
    }

    /// The position of the entry whose key is equivalent to `k`.
    pub open spec fn key_idx(&self, k: K) -> int {
        choose|i: int|
            0 <= i < self.entries_spec().len() && #[trigger] key_equiv(self.entries_spec()[i].0, k)
    }

    pub fn new() -> (r: Self)
        ensures
            r.entries_spec() =~= Seq::<(K, V)>::empty(),
            entries_sorted(r.entries_spec()),
    {
        Self { inner: Vec::new() }
    }

    /// Finds the entry whose key is equivalent to `k`, if any.
    fn find_entry(&self, k: &K) -> (r: Option<usize>)
        requires
            entries_sorted(self.entries_spec()),
        ensures
            match r {
                Some(i) => self.has_key(*k) && i == self.key_idx(*k) && i
                    < self.entries_spec().len() && key_equiv(self.entries_spec()[i as int].0, *k),
                None => !self.has_key(*k),
            },
    {
        proof {
            lemma_key_laws::<K>();
        }
        match find_last_le(&self.inner, k) {
            Some(i) => {
                if k.key_le(&self.inner[i].0) {
                    proof {
                        assert(key_equiv(self.entries_spec()[i as int].0, *k));
                        lemma_sorted_key_unique(self.entries_spec(), *k);
                        assert(self.key_idx(*k) == i as int);
                    }
                    Some(i)
                } else {
                    proof {
                        lemma_none_equivalent(self.entries_spec(), *k, i as int);
                    }
                    None
                }
            }
            None => {
                proof {
                    assert forall|j: int| 0 <= j < self.entries_spec().len() implies !key_equiv(
                        #[trigger] self.entries_spec()[j].0,
                        *k,
                    ) by {}
                }
                None
            }
        }
    }
}

impl<K: Key, V: Value> Engine for InMemEngine<K, V> {
    type K = K;
    type V = V;

    open spec fn inv(&self) -> bool {
        entries_sorted(self.entries_spec())
    }

    fn put(&mut self, k: K, v: V) -> (r: Result<(), Error>)
        ensures
            r is Ok,
            old(self).has_key(k) ==> final(self).entries_spec() == old(self).entries_spec().update(
                old(self).key_idx(k),
                (old(self).entries_spec()[old(self).key_idx(k)].0, v),
            ),
            !old(self).has_key(k) ==> {
                let p = if has_le_key(old(self).entries_spec(), k) {
                    last_le_idx(old(self).entries_spec(), k) + 1
                } else {
                    0
                };
                final(self).entries_spec() == old(self).entries_spec().insert(p, (k, v))
            },
    {
        let ghost old_e = self.inner@;
        match self.find_entry(&k) {
            Some(i) => {
                // the stored key stays; only the value is replaced
                let (k_i, _) = self.inner.remove(i);
                self.inner.insert(i, (k_i, v));
                proof {
                    let ii = i as int;
                    assert(self.inner@ =~= old_e.update(ii, (old_e[ii].0, v)));
                    assert(self.inner@ == old_e.update(ii, (old_e[ii].0, v)));
                    assert forall|a: int, b: int|
                        0 <= a < b < self.inner@.len() implies (
                    #[trigger] self.inner@[a].0.le_spec(&self.inner@[b].0)) && !self.inner@[
                        b
                    ].0.le_spec(&self.inner@[a].0) by {
                        assert(self.inner@[a] == if a == ii {
                            (old_e[ii].0, v)
                        } else {
                            old_e[a]
                        });
                        assert(self.inner@[b] == if b == ii {
                            (old_e[ii].0, v)
                        } else {
                            old_e[b]
                        });
                        assert(self.inner@[a].0 == old_e[a].0);
                        assert(self.inner@[b].0 == old_e[b].0);
                        assert(old_e[a].0.le_spec(&old_e[b].0) && !old_e[b].0.le_spec(&old_e[a].0));
                    }
                }
                Ok(())
            }
            None => {
                let n = self.inner.len();
                let last_le = find_last_le(&self.inner, &k);
                let p = match last_le {
                    Some(i) => {
                        proof {
                            assert(i < n);
                        }
                        i + 1
                    }
                    None => 0,
                };
                self.inner.insert(p, (k, v));
                proof {
                    if let Some(i) = last_le {
                        lemma_last_le_at(old_e, k, i as int);
                        lemma_prefix_le(old_e, k, i as int);
                    }
                    lemma_sorted_insert_keeps(old_e, k, v, p as int);
                }
                Ok(())
            }
        }
    }

    fn del(&mut self, k: &K) -> (r: Result<(), Error>)
        ensures
            r is Ok,
            old(self).has_key(*k) ==> final(self).entries_spec() == old(self).entries_spec().remove(
                old(self).key_idx(*k),
            ),
            !old(self).has_key(*k) ==> *final(self) == *old(self),
    {
        let ghost old_e = self.inner@;
        match self.find_entry(k) {
            Some(i) => {
                self.inner.remove(i);
                proof {
                    let ii = i as int;
                    old_e.remove_ensures(ii);
                    assert(self.inner@ == old_e.remove(ii));
                    assert forall|a: int, b: int|
                        0 <= a < b < self.inner@.len() implies (
                    #[trigger] self.inner@[a].0.le_spec(&self.inner@[b].0)) && !self.inner@[
                        b
                    ].0.le_spec(&self.inner@[a].0) by {
                        let a0 = if a < ii {
                            a
                        } else {
                            a + 1
                        };
                        let b0 = if b < ii {
                            b
                        } else {
                            b + 1
                        };
                        assert(old_e.remove(ii)[a] == old_e[a0]);
                        assert(old_e.remove(ii)[b] == old_e[b0]);
                        assert(old_e[a0].0.le_spec(&old_e[b0].0) && !old_e[b0].0.le_spec(
                            &old_e[a0].0,
                        ));
                    }
                }
                Ok(())
            }
            None => Ok(()),
        }
    }

    fn get(&self, k: &K) -> (r: Result<Option<V>, Error>)
        ensures
            r matches Ok(o) && (o is Some == self.has_key(*k)) && (self.has_key(*k)
                ==> o.unwrap()@ == self.entries_spec()[self.key_idx(*k)].1@),
    {
        match self.find_entry(k) {
            Some(i) => Ok(Some(self.inner[i].1.to_owned())),
            None => Ok(None),
        }
    }

    fn scan(&self, lower: &K, upper: &K) -> (r: Result<Vec<V>, Error>)
        ensures
            r matches Ok(vs) && vs@.map_values(|v: V| v@) == range_views(
                self.entries_spec(),
                *lower,
                *upper,
            ),
    {
        let n = self.inner.len();
        let mut res: Vec<V> = Vec::new();
        let mut i: usize = 0;
        proof {
            assert(self.entries_spec().take(0) =~= Seq::<(K, V)>::empty());
            assert(res@.map_values(|v: V| v@) =~= range_views(
                self.entries_spec().take(0),
                *lower,
                *upper,
            ));
        }
        while i < n
            invariant
                n == self.entries_spec().len(),
                0 <= i <= n,
                res@.map_values(|v: V| v@) == range_views(
                    self.entries_spec().take(i as int),
                    *lower,
                    *upper,
                ),
            decreases n - i,
        {
            let ghost prefix = self.entries_spec().take(i as int);
            let in_lower = lower.key_le(&self.inner[i].0);
            let in_upper = !upper.key_le(&self.inner[i].0);
            if in_lower && in_upper {
                res.push(self.inner[i].1.to_owned());
            }
            proof {
                lemma_range_views_snoc(prefix, self.entries_spec()[i as int], *lower, *upper);
                assert(prefix.push(self.entries_spec()[i as int]) =~= self.entries_spec().take(
                    i + 1,
                ));
                assert(res@.map_values(|v: V| v@) =~= range_views(
                    self.entries_spec().take(i + 1),
                    *lower,
                    *upper,
                ));
            }
            i = i + 1;
        }
        proof {
            assert(self.entries_spec().take(n as int) =~= self.entries_spec());
        }
        Ok(res)
    }
}

/// The views of the values stored under keys in `[lo, hi)`, in the
/// order they appear.
pub open spec fn range_views<K: Key, V: Value>(s: Seq<(K, V)>, lo: K, hi: K) -> Seq<V::V>
    decreases s.len(),
{
    if s.len() == 0 {
        Seq::empty()
    } else {
        range_views(s.drop_last(), lo, hi) + (if lo.le_spec(&s.last().0) && !hi.le_spec(
            &s.last().0,
        ) {
            seq![s.last().1@]
        } else {
            Seq::empty()
        })
    }
}

/// Extending the entry sequence by one extends the ranged views by
/// that entry's value view exactly when its key falls in the range.
proof fn lemma_range_views_snoc<K: Key, V: Value>(s: Seq<(K, V)>, e: (K, V), lo: K, hi: K)
    ensures
        range_views(s.push(e), lo, hi) == range_views(s, lo, hi) + (if lo.le_spec(&e.0)
            && !hi.le_spec(&e.0) {
            seq![e.1@]
        } else {
            Seq::<V::V>::empty()
        }),
{
    let t = s.push(e);
    assert(t.drop_last() =~= s);
    assert(t.last() == e);
}

} // verus!
