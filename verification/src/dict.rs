//! Finite maps in a vector, for keys that are compared by value.
use vstd::prelude::*;

use crate::addr::{IpAddr, SocketAddr};

verus! {

/// Keys that can be told apart.
pub trait Key: Copy {
    fn same(&self, other: &Self) -> (r: bool)
        ensures
            r == (*self == *other),
    ;
}

impl Key for u32 {
    fn same(&self, other: &Self) -> (r: bool) {
        *self == *other
    }
}

impl Key for IpAddr {
    fn same(&self, other: &Self) -> (r: bool) {
        *self == *other
    }
}

impl Key for SocketAddr {
    fn same(&self, other: &Self) -> (r: bool) {
        *self == *other
    }
}

/// The map of a sequence of entries.
pub open spec fn map_of<K, V>(s: Seq<(K, V)>) -> Map<K, V>
    decreases s.len(),
{
    if s.len() == 0 {
        Map::empty()
    } else {
        map_of(s.drop_last()).insert(s.last().0, s.last().1)
    }
}

/// No key occurs twice.
pub open spec fn keys_differ<K, V>(s: Seq<(K, V)>) -> bool {
    forall|i: int, j: int| 0 <= i < j < s.len() ==> (#[trigger] s[i]).0 != (#[trigger] s[j]).0
}

pub proof fn lemma_map_of<K, V>(s: Seq<(K, V)>)
    requires
        keys_differ(s),
    ensures
        map_of(s).dom().finite(),
        map_of(s).dom().len() == s.len(),
        forall|i: int|
            0 <= i < s.len() ==> map_of(s).contains_key((#[trigger] s[i]).0) && map_of(s)[s[i].0]
                == s[i].1,
        forall|k: K| #[trigger]
            map_of(s).contains_key(k) ==> exists|i: int| 0 <= i < s.len() && (#[trigger] s[i]).0 == k,
    decreases s.len(),
{
    if s.len() > 0 {
        let t = s.drop_last();
        assert forall|i: int, j: int| 0 <= i < j < t.len() implies (#[trigger] t[i]).0 != (
        #[trigger] t[j]).0 by {
            assert(t[i] == s[i] && t[j] == s[j]);
        }
        lemma_map_of(t);
        let k = s.last().0;
        if map_of(t).contains_key(k) {
            let i = choose|i: int| 0 <= i < t.len() && (#[trigger] t[i]).0 == k;
            assert(s[i].0 == s[s.len() - 1].0);
        }
        assert forall|i: int| 0 <= i < s.len() implies map_of(s).contains_key((#[trigger] s[i]).0)
            && map_of(s)[s[i].0] == s[i].1 by {
            if i < t.len() {
                assert(t[i] == s[i]);
                assert(s[i].0 != s[s.len() - 1].0);
            }
        }
        assert forall|k2: K| #[trigger] map_of(s).contains_key(k2) implies exists|i: int|
            0 <= i < s.len() && (#[trigger] s[i]).0 == k2 by {
            if k2 == k {
                assert(s[s.len() - 1].0 == k2);
            } else {
                let i = choose|i: int| 0 <= i < t.len() && (#[trigger] t[i]).0 == k2;
                assert(s[i].0 == k2);
            }
        }
    }
}

/// A finite map.
pub struct Dict<K, V> {
    entries: Vec<(K, V)>,
}

impl<K: Key, V> View for Dict<K, V> {
    type V = Map<K, V>;

    closed spec fn view(&self) -> Map<K, V> {
        map_of(self.entries@)
    }
}

impl<K: Key, V> Dict<K, V> {
    pub closed spec fn wf(&self) -> bool {
        keys_differ(self.entries@)
    }

    /// The entries in the order in which they stand.
    pub closed spec fn order(&self) -> Seq<(K, V)> {
        self.entries@
    }

    /// The map is that of its entries.
    pub proof fn lemma_order(&self)
        requires
            self.wf(),
        ensures
            self@ == map_of(self.order()),
            keys_differ(self.order()),
            self@.dom().finite(),
            self@.dom().len() == self.order().len(),
            forall|i: int|
                0 <= i < self.order().len() ==> self@.contains_key((#[trigger] self.order()[i]).0)
                    && self@[self.order()[i].0] == self.order()[i].1,
            forall|k: K| #[trigger]
                self@.contains_key(k) ==> exists|i: int|
                    0 <= i < self.order().len() && (#[trigger] self.order()[i]).0 == k,
    {
        lemma_map_of(self.entries@);
    }

    /// The empty map.
    pub fn new() -> (r: Dict<K, V>)
        ensures
            r.wf(),
            r@ == Map::<K, V>::empty(),
    {
        Dict { entries: Vec::new() }
    }

    /// How many entries there are.
    pub fn len(&self) -> (r: usize)
        requires
            self.wf(),
        ensures
            r == self@.dom().len(),
            r == self.order().len(),
    {
        proof {
            lemma_map_of(self.entries@);
        }
        self.entries.len()
    }

    /// The key of the `i`-th entry.
    pub fn key_at(&self, i: usize) -> (r: K)
        requires
            self.wf(),
            i < self.order().len(),
        ensures
            r == self.order()[i as int].0,
            self@.contains_key(r),
    {
        proof {
            lemma_map_of(self.entries@);
        }
        self.entries[i].0
    }

    /// Where the entry of `k` stands, if there is one.
    fn find(&self, k: &K) -> (r: Option<usize>)
        requires
            self.wf(),
        ensures
            r is Some <==> self@.contains_key(*k),
            r matches Some(i) ==> i < self.entries@.len() && self.entries@[i as int].0 == *k
                && self@[*k] == self.entries@[i as int].1,
    {
        proof {
            lemma_map_of(self.entries@);
        }
        let mut i: usize = 0;
        while i < self.entries.len()
            invariant
                self.wf(),
                i <= self.entries@.len(),
                forall|j: int| 0 <= j < i ==> (#[trigger] self.entries@[j]).0 != *k,
                forall|j: int|
                    0 <= j < self.entries@.len() ==> self@.contains_key(
                        (#[trigger] self.entries@[j]).0,
                    ) && self@[self.entries@[j].0] == self.entries@[j].1,
                forall|q: K| #[trigger]
                    self@.contains_key(q) ==> exists|j: int|
                        0 <= j < self.entries@.len() && (#[trigger] self.entries@[j]).0 == q,
            decreases self.entries@.len() - i,
        {
            if self.entries[i].0.same(k) {
                return Some(i);
            }
            i += 1;
        }
        None
    }

    pub fn contains(&self, k: &K) -> (r: bool)
        requires
            self.wf(),
        ensures
            r == self@.contains_key(*k),
    {
        self.find(k).is_some()
    }

    pub fn get(&self, k: &K) -> (r: Option<&V>)
        requires
            self.wf(),
        ensures
            r is Some <==> self@.contains_key(*k),
            r matches Some(v) ==> *v == self@[*k],
    {
        match self.find(k) {
            Some(i) => Some(&self.entries[i].1),
            None => None,
        }
    }

    /// The value of `k`, to be changed in place.
    pub fn value_mut(&mut self, k: &K) -> (r: &mut V)
        requires
            old(self).wf(),
            old(self)@.contains_key(*k),
        ensures
            *r == old(self)@[*k],
            final(self).wf(),
            final(self)@ == old(self)@.insert(*k, *final(r)),
            final(self).order().len() == old(self).order().len(),
            forall|i: int|
                0 <= i < old(self).order().len() ==> (#[trigger] final(self).order()[i]).0 == old(
                    self,
                ).order()[i].0,
    {
        let at = self.find(k);
        let i = match at {
            Some(i) => i,
            None => 0,
        };
        proof {
            let s = self.entries@;
            assert forall|v: V| map_of(#[trigger] s.update(i as int, (*k, v))) == map_of(s).insert(*k, v)
                && keys_differ(s.update(i as int, (*k, v))) by {
                lemma_updated(s, i as int, *k, v);
            }
        }
        &mut self.entries[i].1
    }

    pub fn insert(&mut self, k: K, v: V)
        requires
            old(self).wf(),
        ensures
            final(self).wf(),
            final(self)@ == old(self)@.insert(k, v),
    {
        let ghost s = self.entries@;
        match self.find(&k) {
            Some(i) => {
                proof {
                    lemma_updated(s, i as int, k, v);
                }
                self.entries[i] = (k, v);
            },
            None => {
                proof {
                    lemma_map_of(s);
                }
                self.entries.push((k, v));
                assert(self.entries@.drop_last() =~= s);
                assert forall|i: int, j: int| 0 <= i < j < self.entries@.len() implies (
                #[trigger] self.entries@[i]).0 != (#[trigger] self.entries@[j]).0 by {
                    if j == s.len() {
                        assert(self.entries@[i] == s[i]);
                        assert(map_of(s).contains_key(s[i].0));
                    } else {
                        assert(self.entries@[i] == s[i] && self.entries@[j] == s[j]);
                    }
                }
            },
        }
    }

    pub fn remove(&mut self, k: &K) -> (r: Option<V>)
        requires
            old(self).wf(),
        ensures
            final(self).wf(),
            final(self)@ == old(self)@.remove(*k),
            r is Some <==> old(self)@.contains_key(*k),
            r matches Some(v) ==> v == old(self)@[*k],
    {
        let ghost s = self.entries@;
        match self.find(k) {
            Some(i) => {
                proof {
                    lemma_without(s, i as int);
                }
                Some(self.entries.remove(i).1)
            },
            None => {
                assert(map_of(s).remove(*k) =~= map_of(s));
                None
            },
        }
    }
}

proof fn lemma_updated<K, V>(s: Seq<(K, V)>, i: int, k: K, v: V)
    requires
        keys_differ(s),
        0 <= i < s.len(),
        s[i].0 == k,
    ensures
        keys_differ(s.update(i, (k, v))),
        map_of(s.update(i, (k, v))) == map_of(s).insert(k, v),
{
    let t = s.update(i, (k, v));
    assert forall|a: int, b: int| 0 <= a < b < t.len() implies (#[trigger] t[a]).0 != (
    #[trigger] t[b]).0 by {
        assert(t[a].0 == s[a].0 && t[b].0 == s[b].0);
    }
    lemma_map_of(s);
    lemma_map_of(t);
    let m = map_of(s).insert(k, v);
    assert forall|q: K| #[trigger] map_of(t).contains_key(q) == m.contains_key(q) by {
        if map_of(t).contains_key(q) {
            let j = choose|j: int| 0 <= j < t.len() && (#[trigger] t[j]).0 == q;
            assert(s[j].0 == q);
        }
        if m.contains_key(q) && q != k {
            let j = choose|j: int| 0 <= j < s.len() && (#[trigger] s[j]).0 == q;
            assert(t[j].0 == q);
        }
        assert(t[i].0 == k);
    }
    assert forall|q: K| #[trigger] map_of(t).contains_key(q) implies map_of(t)[q] == m[q] by {
        let j = choose|j: int| 0 <= j < t.len() && (#[trigger] t[j]).0 == q;
        if j != i {
            assert(s[j] == t[j]);
            assert(q != k) by {
                assert(s[i].0 == k);
            }
        }
    }
    assert(map_of(t) =~= m);
}

proof fn lemma_without<K, V>(s: Seq<(K, V)>, i: int)
    requires
        keys_differ(s),
        0 <= i < s.len(),
    ensures
        keys_differ(s.remove(i)),
        map_of(s.remove(i)) == map_of(s).remove(s[i].0),
{
    let t = s.remove(i);
    let k = s[i].0;
    assert forall|a: int, b: int| 0 <= a < b < t.len() implies (#[trigger] t[a]).0 != (
    #[trigger] t[b]).0 by {
        let x = if a < i {
            a
        } else {
            a + 1
        };
        let y = if b < i {
            b
        } else {
            b + 1
        };
        assert(t[a] == s[x] && t[b] == s[y]);
    }
    lemma_map_of(s);
    lemma_map_of(t);
    let m = map_of(s).remove(k);
    assert forall|q: K| #[trigger] map_of(t).contains_key(q) == m.contains_key(q) by {
        if map_of(t).contains_key(q) {
            let j = choose|j: int| 0 <= j < t.len() && (#[trigger] t[j]).0 == q;
            let x = if j < i {
                j
            } else {
                j + 1
            };
            assert(s[x] == t[j]);
            assert(s[x].0 != s[i].0);
        }
        if m.contains_key(q) {
            let j = choose|j: int| 0 <= j < s.len() && (#[trigger] s[j]).0 == q;
            assert(t[if j < i {
                j
            } else {
                j - 1
            }].0 == q);
        }
    }
    assert forall|q: K| #[trigger] map_of(t).contains_key(q) implies map_of(t)[q] == m[q] by {
        let j = choose|j: int| 0 <= j < t.len() && (#[trigger] t[j]).0 == q;
        let x = if j < i {
            j
        } else {
            j + 1
        };
        assert(s[x] == t[j]);
    }
    assert(map_of(t) =~= m);
}

} // verus!
