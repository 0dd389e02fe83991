//! Sequences of (key, value) pairs read as maps: the first entry of a key
//! wins; removing a key drops all its entries.

use crate::envelope::id::EnvelopeId;
use vstd::prelude::*;

verus! {

/// The first value stored under `k`.
pub open spec fn first_get<A>(v: Seq<(Seq<char>, A)>, k: Seq<char>) -> Option<A>
    decreases v.len(),
{
    if v.len() == 0 {
        None
    } else {
        match first_get(v.drop_last(), k) {
            Some(e) => Some(e),
            None => if v.last().0 == k {
                Some(v.last().1)
            } else {
                None
            },
        }
    }
}

/// The sequence without the entries under `k`.
pub open spec fn drop_key<A>(v: Seq<(Seq<char>, A)>, k: Seq<char>) -> Seq<(Seq<char>, A)>
    decreases v.len(),
{
    if v.len() == 0 {
        v
    } else if v.last().0 == k {
        drop_key(v.drop_last(), k)
    } else {
        drop_key(v.drop_last(), k).push(v.last())
    }
}

/// The map a keyed sequence denotes (the first entry of each key wins).
pub open spec fn key_map<A>(v: Seq<(Seq<char>, A)>) -> Map<Seq<char>, A> {
    Map::new(|k: Seq<char>| first_get(v, k) is Some, |k: Seq<char>| first_get(v, k)->0)
}

/// No key occurs twice.
pub open spec fn keys_unique<A>(v: Seq<(Seq<char>, A)>) -> bool {
    forall|i: int, j: int| 0 <= i < j < v.len() ==> (#[trigger] v[i]).0 != (#[trigger] v[j]).0
}

pub proof fn lemma_drop_key<A>(v: Seq<(Seq<char>, A)>, k: Seq<char>, k2: Seq<char>)
    ensures
        first_get(drop_key(v, k), k2) == if k2 == k {
            None
        } else {
            first_get(v, k2)
        },
    decreases v.len(),
{
    if v.len() > 0 {
        lemma_drop_key(v.drop_last(), k, k2);
        let init = drop_key(v.drop_last(), k);
        if v.last().0 != k {
            assert(init.push(v.last()).drop_last() =~= init);
        }
    }
}

pub proof fn lemma_drop_key_map<A>(v: Seq<(Seq<char>, A)>, k: Seq<char>)
    ensures
        key_map(drop_key(v, k)) =~= key_map(v).remove(k),
{
    assert forall|k2: Seq<char>| true implies #[trigger] first_get(drop_key(v, k), k2) == if k2 == k {
        None
    } else {
        first_get(v, k2)
    } by {
        lemma_drop_key(v, k, k2);
    }
}

pub proof fn lemma_push_map<A>(v: Seq<(Seq<char>, A)>, k: Seq<char>, e: A)
    requires
        first_get(v, k) is None,
    ensures
        key_map(v.push((k, e))) =~= key_map(v).insert(k, e),
{
    assert(v.push((k, e)).drop_last() =~= v);
}

pub proof fn lemma_drop_key_absent<A>(v: Seq<(Seq<char>, A)>, k: Seq<char>)
    ensures
        first_get(drop_key(v, k), k) is None,
{
    lemma_drop_key(v, k, k);
}

pub proof fn lemma_drop_key_unique<A>(v: Seq<(Seq<char>, A)>, k: Seq<char>)
    requires
        keys_unique(v),
    ensures
        keys_unique(drop_key(v, k)),
        forall|i: int| 0 <= i < drop_key(v, k).len() ==> (exists|j: int| 0 <= j < v.len() && v[j] == #[trigger] drop_key(v, k)[i]),
    decreases v.len(),
{
    if v.len() > 0 {
        let init = v.drop_last();
        assert(keys_unique(init)) by {
            assert forall|i: int, j: int| 0 <= i < j < init.len() implies (#[trigger] init[i]).0
                != (#[trigger] init[j]).0 by {
                assert(init[i] == v[i] && init[j] == v[j]);
            }
        }
        lemma_drop_key_unique(init, k);
        let d = drop_key(init, k);
        assert forall|i: int| 0 <= i < d.len() implies (exists|j: int| 0 <= j < v.len() && v[j] == #[trigger] d[i]) by {
            let j = choose|j: int| 0 <= j < init.len() && init[j] == d[i];
            assert(v[j] == init[j]);
        }
        if v.last().0 != k {
            let d2 = d.push(v.last());
            assert forall|i: int, j: int| 0 <= i < j < d2.len() implies (#[trigger] d2[i]).0 != (#[trigger] d2[j]).0 by {
                if j == d.len() {
                    let w = choose|w: int| 0 <= w < init.len() && init[w] == d[i];
                    assert(v[w] == init[w]);
                    assert(v[v.len() - 1] == v.last());
                } else {
                    assert(d2[i] == d[i] && d2[j] == d[j]);
                }
            }
            assert forall|i: int| 0 <= i < d2.len() implies (exists|j: int| 0 <= j < v.len() && v[j] == #[trigger] d2[i]) by {
                if i == d.len() {
                    assert(v[v.len() - 1] == d2[i]);
                } else {
                    assert(d2[i] == d[i]);
                }
            }
        }
    }
}

pub proof fn lemma_push_unique<A>(v: Seq<(Seq<char>, A)>, k: Seq<char>, e: A)
    requires
        keys_unique(v),
        forall|i: int| 0 <= i < v.len() ==> (#[trigger] v[i]).0 != k,
    ensures
        keys_unique(v.push((k, e))),
{
    let w = v.push((k, e));
    assert forall|i: int, j: int| 0 <= i < j < w.len() implies (#[trigger] w[i]).0 != (#[trigger] w[j]).0 by {
        if j == v.len() {
            assert(w[i] == v[i]);
        } else {
            assert(w[i] == v[i] && w[j] == v[j]);
        }
    }
}

pub proof fn lemma_first_get_none_all<A>(v: Seq<(Seq<char>, A)>, k: Seq<char>)
    requires
        first_get(v, k) is None,
    ensures
        forall|i: int| 0 <= i < v.len() ==> (#[trigger] v[i]).0 != k,
    decreases v.len(),
{
    if v.len() > 0 {
        lemma_first_get_none_all(v.drop_last(), k);
        assert forall|i: int| 0 <= i < v.len() implies (#[trigger] v[i]).0 != k by {
            if i < v.len() - 1 {
                assert(v[i] == v.drop_last()[i]);
            }
        }
    }
}

pub proof fn lemma_first_get_prefix<A>(v: Seq<(Seq<char>, A)>, n: int, k: Seq<char>)
    requires
        0 <= n <= v.len(),
        first_get(v.take(n), k) is Some,
    ensures
        first_get(v, k) == first_get(v.take(n), k),
    decreases v.len() - n,
{
    if n < v.len() {
        assert(v.take(n + 1).drop_last() =~= v.take(n));
        lemma_first_get_prefix(v, n + 1, k);
    } else {
        assert(v.take(n) =~= v);
    }
}



pub proof fn lemma_drop_key_none<A>(v: Seq<(Seq<char>, A)>, k: Seq<char>)
    requires
        forall|i: int| 0 <= i < v.len() ==> (#[trigger] v[i]).0 != k,
    ensures
        drop_key(v, k) == v,
        first_get(v, k) is None,
    decreases v.len(),
{
    if v.len() > 0 {
        let init = v.drop_last();
        assert forall|i: int| 0 <= i < init.len() implies (#[trigger] init[i]).0 != k by {
            assert(init[i] == v[i]);
        }
        lemma_drop_key_none(init, k);
        assert(v[v.len() - 1] == v.last());
        assert(init.push(v.last()) =~= v);
    }
}

pub proof fn lemma_drop_key_remove<A>(v: Seq<(Seq<char>, A)>, i: int, k: Seq<char>)
    requires
        0 <= i < v.len(),
        v[i].0 == k,
    ensures
        drop_key(v.remove(i), k) == drop_key(v, k),
    decreases v.len(),
{
    let init = v.drop_last();
    if i == v.len() - 1 {
        assert(v.remove(i) =~= init);
    } else {
        assert(init[i] == v[i]);
        lemma_drop_key_remove(init, i, k);
        let w = v.remove(i);
        assert(w.drop_last() =~= init.remove(i));
        assert(w.last() == v.last());
    }
}

pub proof fn lemma_remove_unique<A>(v: Seq<(Seq<char>, A)>, i: int)
    requires
        0 <= i < v.len(),
        keys_unique(v),
    ensures
        keys_unique(v.remove(i)),
{
    let w = v.remove(i);
    assert forall|a: int, b: int| 0 <= a < b < w.len() implies (#[trigger] w[a]).0 != (#[trigger] w[b]).0 by {
        let a2 = if a < i { a } else { a + 1 };
        let b2 = if b < i { b } else { b + 1 };
        assert(w[a] == v[a2] && w[b] == v[b2]);
    }
}

/// Pairs keyed by envelope id, read through the views of both sides.
pub open spec fn pairs_view<T: View>(v: Seq<(EnvelopeId, T)>) -> Seq<(Seq<char>, T::V)> {
    v.map_values(|p: (EnvelopeId, T)| (p.0@, p.1@))
}

/// A store of values keyed by envelope id, in insertion order.
pub struct Keyed<T> {
    items: Vec<(EnvelopeId, T)>,
}

impl<T: View> View for Keyed<T> {
    type V = Map<Seq<char>, T::V>;

    closed spec fn view(&self) -> Map<Seq<char>, T::V> {
        key_map(pairs_view(self.items@))
    }
}

impl<T: View> Keyed<T> {
    /// The keys in insertion order.
    pub closed spec fn order(&self) -> Seq<Seq<char>> {
        pairs_view(self.items@).map_values(|p: (Seq<char>, T::V)| p.0)
    }

    /// No key is held twice.
    pub closed spec fn wf(&self) -> bool {
        keys_unique(pairs_view(self.items@))
    }

    /// The keys held are those of the map.
    pub proof fn lemma_order_dom(&self)
        ensures
            forall|k: Seq<char>| self@.contains_key(k) <==> self.order().contains(k),
    {
        let v = pairs_view(self.items@);
        assert forall|k: Seq<char>| self@.contains_key(k) <==> self.order().contains(k) by {
            if self.order().contains(k) {
                let i = choose|i: int| 0 <= i < self.order().len() && self.order()[i] == k;
                assert(v[i].0 == k);
                if first_get(v, k) is None {
                    lemma_first_get_none_all(v, k);
                }
            }
            if self@.contains_key(k) {
                if !self.order().contains(k) {
                    assert forall|i: int| 0 <= i < v.len() implies (#[trigger] v[i]).0 != k by {
                        assert(self.order()[i] == v[i].0);
                    }
                    lemma_drop_key_none(v, k);
                }
            }
        }
    }

    /// An empty store.
    pub fn new() -> (r: Keyed<T>)
        ensures
            r@ == Map::<Seq<char>, T::V>::empty(),
            r.order().len() == 0,
            r.wf(),
    {
        let r = Keyed { items: Vec::new() };
        assert(r@ =~= Map::<Seq<char>, T::V>::empty());
        r
    }

    /// The number of entries.
    pub fn len(&self) -> (n: usize)
        ensures
            n == self.order().len(),
    {
        self.items.len()
    }

    fn find(&self, id: &EnvelopeId) -> (r: Option<usize>)
        ensures
            match r {
                Some(i) => i < self.items@.len() && self.items@[i as int].0@ == id@ && self@.contains_key(id@)
                    && self@[id@] == self.items@[i as int].1@,
                None => !self@.contains_key(id@) && forall|j: int|
                    0 <= j < self.items@.len() ==> (#[trigger] self.items@[j]).0@ != id@,
            },
    {
        let ghost v = pairs_view(self.items@);
        let mut i: usize = 0;
        assert(v.take(0) =~= Seq::<(Seq<char>, T::V)>::empty());
        while i < self.items.len()
            invariant
                v == pairs_view(self.items@),
                i <= self.items@.len(),
                first_get(v.take(i as int), id@) is None,
                forall|j: int| 0 <= j < i ==> (#[trigger] self.items@[j]).0@ != id@,
            decreases self.items@.len() - i,
        {
            assert(v.take(i + 1).drop_last() =~= v.take(i as int));
            assert(v[i as int] == (self.items@[i as int].0@, self.items@[i as int].1@));
            if self.items[i].0.same(id) {
                proof {
                    lemma_first_get_prefix(v, i + 1, id@);
                }
                return Some(i);
            }
            i = i + 1;
        }
        assert(v.take(i as int) =~= v);
        None
    }

    /// The value under `id`.
    pub fn get(&self, id: &EnvelopeId) -> (r: Option<&T>)
        ensures
            match r {
                Some(t) => self@.contains_key(id@) && t@ == self@[id@],
                None => !self@.contains_key(id@),
            },
    {
        match self.find(id) {
            Some(i) => Some(&self.items[i].1),
            None => None,
        }
    }

    /// Whether `id` is held.
    pub fn contains(&self, id: &EnvelopeId) -> (r: bool)
        ensures
            r == self@.contains_key(id@),
    {
        self.find(id).is_some()
    }

    /// The key and value of the `i`-th entry.
    pub fn entry_at(&self, i: usize) -> (r: (&EnvelopeId, &T))
        requires
            i < self.order().len(),
        ensures
            r.0@ == self.order()[i as int],
            self@.contains_key(r.0@),
            self.wf() ==> self@[r.0@] == r.1@,
    {
        proof {
            let v = pairs_view(self.items@);
            assert(v[i as int] == (self.items@[i as int].0@, self.items@[i as int].1@));
            self.lemma_order_dom();
            assert(self.order()[i as int] == v[i as int].0);
            assert(self.order().contains(v[i as int].0));
            if self.wf() {
                lemma_first_get_prefix(v, i + 1, v[i as int].0);
                assert(v.take(i + 1).drop_last() =~= v.take(i as int));
                if first_get(v.take(i as int), v[i as int].0) is Some {
                    lemma_first_get_some_index(v.take(i as int), v[i as int].0);
                }
            }
        }
        (&self.items[i].0, &self.items[i].1)
    }

    /// Removes `id`, giving back its value.
    pub fn remove(&mut self, id: &EnvelopeId) -> (r: Option<T>)
        ensures
            final(self)@ == old(self)@.remove(id@),
            match r {
                Some(t) => old(self)@.contains_key(id@) && t@ == old(self)@[id@],
                None => !old(self)@.contains_key(id@),
            },
            old(self).wf() ==> final(self).wf(),
            final(self).order().len() <= old(self).order().len(),
    {
        let ghost v0 = pairs_view(self.items@);
        let mut out: Option<T> = None;
        loop
            invariant
                v0 == pairs_view(old(self).items@),
                drop_key(pairs_view(self.items@), id@) == drop_key(v0, id@),
                keys_unique(v0) ==> keys_unique(pairs_view(self.items@)),
                self.items@.len() <= v0.len(),
                match out {
                    Some(t) => key_map(v0).contains_key(id@) && t@ == key_map(v0)[id@],
                    None => key_map(pairs_view(self.items@)) == key_map(v0),
                },
            decreases self.items@.len(),
        {
            match self.find(id) {
                None => {
                    proof {
                        let v = pairs_view(self.items@);
                        assert forall|j: int| 0 <= j < v.len() implies (#[trigger] v[j]).0 != id@ by {
                            assert(v[j].0 == self.items@[j].0@);
                        }
                        lemma_drop_key_none(v, id@);
                        lemma_drop_key_map(v0, id@);
                    }
                    return out;
                },
                Some(i) => {
                    let ghost v = pairs_view(self.items@);
                    proof {
                        assert(v[i as int].0 == id@);
                        lemma_drop_key_remove(v, i as int, id@);
                        if keys_unique(v0) {
                            lemma_remove_unique(v, i as int);
                        }
                    }
                    let (_, t) = self.items.remove(i);
                    assert(pairs_view(self.items@) =~= v.remove(i as int));
                    if out.is_none() {
                        out = Some(t);
                    }
                },
            }
        }
    }

    /// Stores `t` under `id`, replacing what it held.
    pub fn insert(&mut self, id: EnvelopeId, t: T)
        ensures
            final(self)@ == old(self)@.insert(id@, t@),
            old(self).wf() ==> final(self).wf(),
            final(self).order().len() <= old(self).order().len() + 1,
    {
        let _ = self.remove(&id);
        let ghost v = pairs_view(self.items@);
        proof {
            lemma_drop_key_absent(v, id@);
        }
        let ghost idv = id@;
        let ghost tv = t@;
        match self.find(&id) {
            Some(_) => {},
            None => {},
        }
        proof {
            assert forall|i: int| 0 <= i < v.len() implies (#[trigger] v[i]).0 != idv by {
                assert(v[i].0 == self.items@[i].0@);
                if v[i].0 == idv {
                    lemma_first_get_some_at(v, i, idv);
                }
            }
            lemma_drop_key_none(v, idv);
            lemma_push_map(v, idv, tv);
            if self.wf() {
                lemma_push_unique(v, idv, tv);
            }
        }
        self.items.push((id, t));
        assert(pairs_view(self.items@) =~= v.push((idv, tv)));
    }

    /// The keys in insertion order.
    pub fn keys(&self) -> (r: Vec<EnvelopeId>)
        ensures
            r@.len() == self.order().len(),
            forall|i: int| 0 <= i < r@.len() ==> (#[trigger] r@[i])@ == self.order()[i],
    {
        let mut out: Vec<EnvelopeId> = Vec::new();
        let mut i: usize = 0;
        while i < self.items.len()
            invariant
                i <= self.items@.len(),
                out@.len() == i,
                forall|j: int| 0 <= j < i ==> (#[trigger] out@[j])@ == self.order()[j],
            decreases self.items@.len() - i,
        {
            proof {
                let v = pairs_view(self.items@);
                assert(v[i as int].0 == self.items@[i as int].0@);
                assert(self.order()[i as int] == v[i as int].0);
            }
            out.push(self.items[i].0.clone());
            i = i + 1;
        }
        out
    }
}

pub proof fn lemma_first_get_some_at<A>(v: Seq<(Seq<char>, A)>, i: int, k: Seq<char>)
    requires
        0 <= i < v.len(),
        v[i].0 == k,
    ensures
        first_get(v, k) is Some,
    decreases v.len(),
{
    if i < v.len() - 1 {
        assert(v.drop_last()[i] == v[i]);
        lemma_first_get_some_at(v.drop_last(), i, k);
    }
}

pub proof fn lemma_first_get_some_index<A>(v: Seq<(Seq<char>, A)>, k: Seq<char>)
    requires
        first_get(v, k) is Some,
    ensures
        exists|i: int| 0 <= i < v.len() && v[i].0 == k,
    decreases v.len(),
{
    if first_get(v.drop_last(), k) is Some {
        lemma_first_get_some_index(v.drop_last(), k);
        let i = choose|i: int| 0 <= i < v.drop_last().len() && v.drop_last()[i].0 == k;
        assert(v[i] == v.drop_last()[i]);
    } else {
        assert(v[v.len() - 1] == v.last());
    }
}

} // verus!
