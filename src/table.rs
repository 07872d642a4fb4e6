use vstd::prelude::*;

use crate::path::DirPath;
use crate::text::{insert_sorted, sorted_texts, texts_of};

verus! {

/// A value with its own well-formedness, that can be copied with the same view.
pub trait Duplicate: View + Sized {
    spec fn ok(&self) -> bool;

    fn duplicate(&self) -> (r: Self)
        requires
            self.ok(),
        ensures
            r@ == self@,
            r.ok();
}

impl Duplicate for String {
    open spec fn ok(&self) -> bool {
        true
    }

    fn duplicate(&self) -> (r: Self) {
        self.clone()
    }
}

impl Duplicate for DirPath {
    open spec fn ok(&self) -> bool {
        true
    }

    fn duplicate(&self) -> (r: Self) {
        self.clone()
    }
}

/// A key whose equality is the equality of its view.
pub trait Key: Duplicate {
    fn same(&self, other: &Self) -> (r: bool)
        ensures
            r == (self@ == other@);
}

impl Key for String {
    fn same(&self, other: &Self) -> (r: bool) {
        *self == *other
    }
}

impl Key for DirPath {
    fn same(&self, other: &Self) -> (r: bool) {
        *self == *other
    }
}

/// The map that a list of pairs describes.
pub open spec fn map_of<A, B>(s: Seq<(A, B)>) -> Map<A, B> {
    Map::new(
        |k: A| exists|i: int| 0 <= i < s.len() && #[trigger] s[i].0 == k,
        |k: A| s[choose|i: int| 0 <= i < s.len() && #[trigger] s[i].0 == k].1,
    )
}

pub open spec fn unique_keys<A, B>(s: Seq<(A, B)>) -> bool {
    forall|i: int, j: int|
        0 <= i < s.len() && 0 <= j < s.len() && #[trigger] s[i].0 == #[trigger] s[j].0 ==> i == j
}

pub proof fn lemma_map_of_at<A, B>(s: Seq<(A, B)>, i: int)
    requires
        unique_keys(s),
        0 <= i < s.len(),
    ensures
        map_of(s).contains_key(s[i].0),
        map_of(s)[s[i].0] == s[i].1,
{
    let k = s[i].0;
    assert(0 <= i < s.len() && s[i].0 == k);
    let j = choose|j: int| 0 <= j < s.len() && #[trigger] s[j].0 == k;
    assert(s[j].0 == s[i].0);
}

/// A list of pairs with unique keys describes `m` when each pair is in `m` and each key of
/// `m` has a pair.
pub proof fn lemma_map_of_eq<A, B>(s: Seq<(A, B)>, m: Map<A, B>)
    requires
        unique_keys(s),
        forall|i: int| 0 <= i < s.len() ==> m.contains_key(#[trigger] s[i].0) && m[s[i].0] == s[i].1,
        forall|q: A| m.contains_key(q) ==> exists|i: int| 0 <= i < s.len() && #[trigger] s[i].0 == q,
    ensures
        map_of(s) == m,
{
    assert forall|q: A| #[trigger] map_of(s).contains_key(q) <==> m.contains_key(q) by {
        if map_of(s).contains_key(q) {
            let i = choose|i: int| 0 <= i < s.len() && #[trigger] s[i].0 == q;
            assert(m.contains_key(s[i].0));
        }
    }
    assert forall|q: A| map_of(s).contains_key(q) implies #[trigger] map_of(s)[q] == m[q] by {
        let i = choose|i: int| 0 <= i < s.len() && #[trigger] s[i].0 == q;
        lemma_map_of_at(s, i);
    }
    assert(map_of(s) =~= m);
}

pub proof fn lemma_map_of_prefix<A, B>(s: Seq<(A, B)>, i: int)
    requires
        unique_keys(s),
        0 <= i < s.len(),
    ensures
        unique_keys(s.subrange(0, i)),
        map_of(s.subrange(0, i + 1)) == map_of(s.subrange(0, i)).insert(s[i].0, s[i].1),
{
    let p = s.subrange(0, i);
    let t = s.subrange(0, i + 1);
    let m = map_of(p).insert(s[i].0, s[i].1);
    assert forall|a: int, b: int| 0 <= a < p.len() && 0 <= b < p.len() && #[trigger] p[a].0 == #[trigger] p[b].0 implies a == b by {
        assert(s[a].0 == p[a].0 && s[b].0 == p[b].0);
    }
    assert forall|a: int, b: int| 0 <= a < t.len() && 0 <= b < t.len() && #[trigger] t[a].0 == #[trigger] t[b].0 implies a == b by {
        assert(s[a].0 == t[a].0 && s[b].0 == t[b].0);
    }
    assert forall|j: int| 0 <= j < t.len() implies m.contains_key(#[trigger] t[j].0) && m[t[j].0] == t[j].1 by {
        if j < i {
            assert(p[j] == t[j]);
            lemma_map_of_at(p, j);
            assert(s[j].0 != s[i].0);
        }
    }
    assert forall|q: A| m.contains_key(q) implies exists|j: int| 0 <= j < t.len() && #[trigger] t[j].0 == q by {
        if q == s[i].0 {
            assert(t[i].0 == q);
        } else {
            let j = choose|j: int| 0 <= j < p.len() && #[trigger] p[j].0 == q;
            assert(t[j].0 == q);
        }
    }
    lemma_map_of_eq(t, m);
}

/// A finite map held as a list of pairs with unique keys.
pub struct Table<K: Key, V: Duplicate> {
    entries: Vec<(K, V)>,
}

impl<K: Key, V: Duplicate> View for Table<K, V> {
    type V = Map<K::V, V::V>;

    open spec fn view(&self) -> Map<K::V, V::V> {
        map_of(self.pairs())
    }
}

impl<K: Key, V: Duplicate> Table<K, V> {
    /// The entries, as views, in their stored order.
    pub closed spec fn pairs(&self) -> Seq<(K::V, V::V)> {
        self.entries@.map_values(|e: (K, V)| (e.0@, e.1@))
    }

    /// Keys are unique, and each value is well formed.
    pub open spec fn wf(&self) -> bool {
        &&& unique_keys(self.pairs())
        &&& self.values_ok()
    }

    pub closed spec fn values_ok(&self) -> bool {
        forall|i: int| 0 <= i < self.entries@.len() ==> (#[trigger] self.entries@[i]).0.ok() && self.entries@[i].1.ok()
    }

    pub fn new() -> (r: Self)
        ensures
            r@ == Map::<K::V, V::V>::empty(),
            r.pairs().len() == 0,
            r.wf(),
    {
        let r = Table { entries: Vec::new() };
        assert(r.pairs() =~= Seq::<(K::V, V::V)>::empty());
        assert(map_of(r.pairs()) =~= Map::<K::V, V::V>::empty());
        r
    }

    pub fn len(&self) -> (r: usize)
        ensures
            r == self.pairs().len(),
    {
        self.entries.len()
    }

    pub fn key_at(&self, i: usize) -> (r: &K)
        requires
            i < self.pairs().len(),
        ensures
            r@ == self.pairs()[i as int].0,
    {
        &self.entries[i].0
    }

    pub fn value_at(&self, i: usize) -> (r: &V)
        requires
            i < self.pairs().len(),
        ensures
            r@ == self.pairs()[i as int].1,
            self.wf() ==> r.ok(),
    {
        &self.entries[i].1
    }

    fn find(&self, k: &K) -> (r: Option<usize>)
        ensures
            r matches Some(i) ==> i < self.pairs().len() && self.pairs()[i as int].0 == k@,
            r is None ==> !self@.contains_key(k@),
    {
        let mut i: usize = 0;
        while i < self.entries.len()
            invariant
                i <= self.entries.len(),
                forall|j: int| 0 <= j < i ==> #[trigger] self.pairs()[j].0 != k@,
            decreases self.entries.len() - i,
        {
            if self.entries[i].0.same(k) {
                return Some(i);
            }
            i += 1;
        }
        None
    }

    pub fn contains_key(&self, k: &K) -> (r: bool)
        requires
            self.wf(),
        ensures
            r == self@.contains_key(k@),
    {
        match self.find(k) {
            Some(i) => {
                proof {
                    lemma_map_of_at(self.pairs(), i as int);
                }
                true
            },
            None => false,
        }
    }

    pub fn get(&self, k: &K) -> (r: Option<&V>)
        requires
            self.wf(),
        ensures
            r matches Some(v) ==> self@.contains_key(k@) && self@[k@] == v@ && v.ok(),
            r is None ==> !self@.contains_key(k@),
    {
        match self.find(k) {
            Some(i) => {
                proof {
                    lemma_map_of_at(self.pairs(), i as int);
                }
                Some(&self.entries[i].1)
            },
            None => None,
        }
    }

    pub fn insert(&mut self, k: K, v: V)
        requires
            old(self).wf(),
            k.ok(),
            v.ok(),
        ensures
            final(self).wf(),
            final(self)@ == old(self)@.insert(k@, v@),
    {
        let ghost s = self.pairs();
        let ghost m = self@.insert(k@, v@);
        let ghost kv = k@;
        let ghost vv = v@;
        match self.find(&k) {
            Some(i) => {
                let ghost old_entries = self.entries@;
                self.entries.set(i, (k, v));
                proof {
                    assert forall|j: int| 0 <= j < self.entries@.len() implies (#[trigger] self.entries@[j]).0.ok() && self.entries@[j].1.ok() by {
                        if j != i {
                            assert(self.entries@[j] == old_entries[j]);
                        }
                    }
                    let t = self.pairs();
                    assert(t =~= s.update(i as int, (kv, vv)));
                    assert forall|a: int, b: int|
                        0 <= a < t.len() && 0 <= b < t.len() && #[trigger] t[a].0 == #[trigger] t[b].0 implies a == b by {
                        assert(s[a].0 == t[a].0 && s[b].0 == t[b].0);
                    }
                    assert forall|j: int| 0 <= j < t.len() implies m.contains_key(#[trigger] t[j].0) && m[t[j].0] == t[j].1 by {
                        if j != i {
                            lemma_map_of_at(s, j);
                            assert(s[j].0 != s[i as int].0);
                        }
                    }
                    assert forall|q: K::V| m.contains_key(q) implies exists|j: int| 0 <= j < t.len() && #[trigger] t[j].0 == q by {
                        if q == kv {
                            assert(t[i as int].0 == q);
                        } else {
                            let j = choose|j: int| 0 <= j < s.len() && #[trigger] s[j].0 == q;
                            assert(t[j].0 == q);
                        }
                    }
                    lemma_map_of_eq(t, m);
                }
            },
            None => {
                let ghost old_entries = self.entries@;
                self.entries.push((k, v));
                proof {
                    assert forall|j: int| 0 <= j < self.entries@.len() implies (#[trigger] self.entries@[j]).0.ok() && self.entries@[j].1.ok() by {
                        if j < old_entries.len() {
                            assert(self.entries@[j] == old_entries[j]);
                        }
                    }
                    let t = self.pairs();
                    assert(t =~= s.push((kv, vv)));
                    assert forall|j: int| 0 <= j < s.len() implies #[trigger] s[j].0 != kv by {
                        lemma_map_of_at(s, j);
                    }
                    assert forall|a: int, b: int|
                        0 <= a < t.len() && 0 <= b < t.len() && #[trigger] t[a].0 == #[trigger] t[b].0 implies a == b by {
                        if a < s.len() && b < s.len() {
                            assert(s[a].0 == t[a].0 && s[b].0 == t[b].0);
                        }
                    }
                    assert forall|j: int| 0 <= j < t.len() implies m.contains_key(#[trigger] t[j].0) && m[t[j].0] == t[j].1 by {
                        if j < s.len() {
                            lemma_map_of_at(s, j);
                        }
                    }
                    assert forall|q: K::V| m.contains_key(q) implies exists|j: int| 0 <= j < t.len() && #[trigger] t[j].0 == q by {
                        if q == kv {
                            assert(t[s.len() as int].0 == q);
                        } else {
                            let j = choose|j: int| 0 <= j < s.len() && #[trigger] s[j].0 == q;
                            assert(t[j].0 == q);
                        }
                    }
                    lemma_map_of_eq(t, m);
                }
            },
        }
    }

    pub fn remove(&mut self, k: &K) -> (r: Option<V>)
        requires
            old(self).wf(),
        ensures
            final(self).wf(),
            final(self)@ == old(self)@.remove(k@),
            r matches Some(v) ==> old(self)@.contains_key(k@) && old(self)@[k@] == v@ && v.ok(),
            r is None ==> !old(self)@.contains_key(k@),
    {
        let ghost s = self.pairs();
        let ghost m = self@.remove(k@);
        match self.find(k) {
            Some(i) => {
                proof {
                    lemma_map_of_at(s, i as int);
                }
                let ghost old_entries = self.entries@;
                let (_, v) = self.entries.remove(i);
                proof {
                    assert(old_entries[i as int].1 == v);
                    assert forall|j: int| 0 <= j < self.entries@.len() implies (#[trigger] self.entries@[j]).0.ok() && self.entries@[j].1.ok() by {
                        let j2 = if j < i { j } else { j + 1 };
                        assert(self.entries@[j] == old_entries[j2]);
                    }
                    let t = self.pairs();
                    assert(t =~= s.remove(i as int));
                    assert forall|a: int, b: int|
                        0 <= a < t.len() && 0 <= b < t.len() && #[trigger] t[a].0 == #[trigger] t[b].0 implies a == b by {
                        let a2 = if a < i { a } else { a + 1 };
                        let b2 = if b < i { b } else { b + 1 };
                        assert(s[a2].0 == t[a].0 && s[b2].0 == t[b].0);
                    }
                    assert forall|j: int| 0 <= j < t.len() implies m.contains_key(#[trigger] t[j].0) && m[t[j].0] == t[j].1 by {
                        let j2 = if j < i { j } else { j + 1 };
                        assert(t[j] == s[j2]);
                        lemma_map_of_at(s, j2);
                        assert(s[j2].0 != s[i as int].0);
                    }
                    assert forall|q: K::V| m.contains_key(q) implies exists|j: int| 0 <= j < t.len() && #[trigger] t[j].0 == q by {
                        let j = choose|j: int| 0 <= j < s.len() && #[trigger] s[j].0 == q;
                        assert(j != i);
                        if j < i {
                            assert(t[j].0 == q);
                        } else {
                            assert(t[j - 1].0 == q);
                        }
                    }
                    lemma_map_of_eq(t, m);
                }
                Some(v)
            },
            None => {
                assert(m =~= self@);
                None
            },
        }
    }
}

impl<K: Key, V: Duplicate> Duplicate for Table<K, V> {
    open spec fn ok(&self) -> bool {
        self.wf()
    }

    fn duplicate(&self) -> (r: Self) {
        let mut entries: Vec<(K, V)> = Vec::new();
        let mut i: usize = 0;
        while i < self.entries.len()
            invariant
                i <= self.entries.len(),
                entries@.len() == i,
                self.wf(),
                forall|j: int| 0 <= j < i ==> (#[trigger] entries@[j]).0@ == self.entries@[j].0@ && entries@[j].1@ == self.entries@[j].1@ && entries@[j].0.ok() && entries@[j].1.ok(),
            decreases self.entries.len() - i,
        {
            assert(self.entries@[i as int].0.ok() && self.entries@[i as int].1.ok());
            entries.push((self.entries[i].0.duplicate(), self.entries[i].1.duplicate()));
            i += 1;
        }
        let r = Table { entries };
        assert(r.pairs() =~= self.pairs());
        assert(r.values_ok());
        r
    }
}

impl<K: Key, V: Duplicate> Table<K, V> {
    /// Adds the entries of `other`, whose values win where both have a key.
    pub fn absorb(&mut self, other: &Self)
        requires
            old(self).wf(),
            other.wf(),
        ensures
            final(self).wf(),
            final(self)@ == old(self)@.union_prefer_right(other@),
    {
        let ghost start = self@;
        let ghost s = other.pairs();
        let mut i: usize = 0;
        while i < other.entries.len()
            invariant
                i <= other.entries.len(),
                s == other.pairs(),
                unique_keys(s),
                other.wf(),
                self.wf(),
                self@ == start.union_prefer_right(map_of(s.subrange(0, i as int))),
            decreases other.entries.len() - i,
        {
            assert(other.entries@[i as int].0.ok() && other.entries@[i as int].1.ok());
            let k = other.entries[i].0.duplicate();
            let v = other.entries[i].1.duplicate();
            self.insert(k, v);
            proof {
                lemma_map_of_prefix(s, i as int);
                assert(self@ =~= start.union_prefer_right(map_of(s.subrange(0, i + 1))));
            }
            i += 1;
        }
        assert(s.subrange(0, s.len() as int) =~= s);
    }
}

impl<V: Duplicate> Table<String, V> {
    /// The keys in code point order.
    pub fn sorted_keys(&self) -> (r: Vec<String>)
        requires
            self.wf(),
        ensures
            sorted_texts(texts_of(r@)),
            texts_of(r@).to_set() == self@.dom(),
    {
        let ghost s = self.pairs();
        let mut out: Vec<String> = Vec::new();
        assert(texts_of(out@).to_set() =~= Set::<Seq<char>>::empty());
        assert(map_of(s.subrange(0, 0)).dom() =~= Set::<Seq<char>>::empty());
        let mut i: usize = 0;
        while i < self.entries.len()
            invariant
                i <= self.entries.len(),
                s == self.pairs(),
                unique_keys(s),
                sorted_texts(texts_of(out@)),
                texts_of(out@).to_set() == map_of(s.subrange(0, i as int)).dom(),
            decreases self.entries.len() - i,
        {
            insert_sorted(&mut out, self.entries[i].0.clone());
            proof {
                lemma_map_of_prefix(s, i as int);
                assert(texts_of(out@).to_set() =~= map_of(s.subrange(0, i + 1)).dom());
            }
            i += 1;
        }
        assert(s.subrange(0, s.len() as int) =~= s);
        out
    }
}

} // verus!
