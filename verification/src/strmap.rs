//! A map keyed by text, kept in the order in which keys were first added.

use crate::text::text_eq;
use vstd::prelude::*;

verus! {

/// Values that can be duplicated without changing what they stand for.
pub trait Dup: DeepView + Sized {
    fn dup(&self) -> (r: Self)
        ensures
            r.deep_view() == self.deep_view(),
    ;
}

impl Dup for String {
    fn dup(&self) -> (r: Self) {
        self.clone()
    }
}

impl Dup for u64 {
    fn dup(&self) -> (r: Self) {
        *self
    }
}

impl Dup for bool {
    fn dup(&self) -> (r: Self) {
        *self
    }
}

impl<T: Dup> Dup for Vec<T> {
    fn dup(&self) -> (r: Self) {
        let mut r: Vec<T> = Vec::new();
        let mut i: usize = 0;
        while i < self.len()
            invariant
                i <= self.len(),
                r.len() == i,
                forall|j: int|
                    0 <= j < i ==> (#[trigger] r@[j]).deep_view() == self@[j].deep_view(),
            decreases self.len() - i,
        {
            let x = self[i].dup();
            r.push(x);
            i += 1;
        }
        assert(r.deep_view() =~= self.deep_view());
        r
    }
}

/// The position of a key in a list of keys, if it occurs.
pub open spec fn key_pos(keys: Seq<Seq<char>>, k: Seq<char>) -> int {
    choose|i: int| 0 <= i < keys.len() && keys[i] == k
}

/// The map that a list of keys and a list of values describe.
pub open spec fn map_of<T>(keys: Seq<Seq<char>>, vals: Seq<T>) -> Map<Seq<char>, T> {
    Map::new(|k: Seq<char>| keys.contains(k), |k: Seq<char>| vals[key_pos(keys, k)])
}

/// Text-keyed map. Its view is a mathematical map from texts to the views of
/// the values.
#[derive(Debug)]
pub struct StrMap<V> {
    entries: Vec<(String, V)>,
}

impl<V> StrMap<V> {
    #[verifier::type_invariant]
    spec fn inv(self) -> bool {
        forall|i: int, j: int|
            0 <= i < j < self.entries@.len() ==> (#[trigger] self.entries@[i]).0@ != (
            #[trigger] self.entries@[j]).0@
    }

    /// The keys, in the order in which the map walks them.
    pub closed spec fn key_seq(&self) -> Seq<Seq<char>> {
        Seq::new(self.entries@.len(), |i: int| self.entries@[i].0@)
    }
}

impl<V: DeepView> View for StrMap<V> {
    type V = Map<Seq<char>, <V as DeepView>::V>;

    closed spec fn view(&self) -> Self::V {
        map_of(self.key_seq(), self.val_seq())
    }
}

impl<V: DeepView> DeepView for StrMap<V> {
    type V = Map<Seq<char>, <V as DeepView>::V>;

    open spec fn deep_view(&self) -> Self::V {
        self.view()
    }
}

impl<V: DeepView> StrMap<V> {
    spec fn val_seq(&self) -> Seq<<V as DeepView>::V> {
        Seq::new(self.entries@.len(), |i: int| self.entries@[i].1.deep_view())
    }

    proof fn lemma_keys(&self)
        requires
            self.inv(),
        ensures
            self.key_seq().no_duplicates(),
            self@.dom() == self.key_seq().to_set(),
            self@.dom().finite(),
            self@.len() == self.key_seq().len(),
            forall|k: Seq<char>| self@.contains_key(k) <==> self.key_seq().contains(k),
    {
        let ks = self.key_seq();
        assert forall|i: int, j: int| 0 <= i < ks.len() && 0 <= j < ks.len() && i != j implies ks[i]
            != ks[j] by {
            if i < j {
                assert(self.entries@[i].0@ != self.entries@[j].0@);
            } else {
                assert(self.entries@[j].0@ != self.entries@[i].0@);
            }
        }
        assert(self@.dom() =~= ks.to_set());
        ks.unique_seq_to_set();
        vstd::seq_lib::seq_to_set_is_finite(ks);
    }

    proof fn lemma_at(&self, i: int)
        requires
            self.inv(),
            0 <= i < self.entries@.len(),
        ensures
            self@.contains_key(self.entries@[i].0@),
            self@[self.entries@[i].0@] == self.entries@[i].1.deep_view(),
    {
        let ks = self.key_seq();
        let k = self.entries@[i].0@;
        assert(ks[i] == k);
        assert(ks.contains(k));
        let p = key_pos(ks, k);
        assert(ks[p] == k);
        if p < i {
            assert(self.entries@[p].0@ != self.entries@[i].0@);
        } else if i < p {
            assert(self.entries@[i].0@ != self.entries@[p].0@);
        }
    }

    proof fn lemma_absent(&self, k: Seq<char>)
        requires
            forall|j: int| 0 <= j < self.entries@.len() ==> (#[trigger] self.entries@[j]).0@ != k,
        ensures
            !self@.contains_key(k),
    {
        let ks = self.key_seq();
        assert forall|j: int| 0 <= j < ks.len() implies ks[j] != k by {
            assert(self.entries@[j].0@ != k);
        }
    }

    pub fn new() -> (r: Self)
        ensures
            r@ == Map::<Seq<char>, <V as DeepView>::V>::empty(),
            r.key_seq() == Seq::<Seq<char>>::empty(),
    {
        let r = StrMap { entries: Vec::new() };
        assert(r@ =~= Map::<Seq<char>, <V as DeepView>::V>::empty());
        assert(r.key_seq() =~= Seq::<Seq<char>>::empty());
        r
    }

    /// The number of entries; every key occurs once in the walk order.
    pub fn len(&self) -> (n: usize)
        ensures
            n == self@.len(),
            n == self.key_seq().len(),
            self.key_seq().no_duplicates(),
            self@.dom() == self.key_seq().to_set(),
            self@.dom().finite(),
            forall|k: Seq<char>| self@.contains_key(k) <==> self.key_seq().contains(k),
    {
        proof {
            use_type_invariant(self);
            self.lemma_keys();
        }
        self.entries.len()
    }

    pub fn is_empty(&self) -> (r: bool)
        ensures
            r == (self@.len() == 0),
            r == (self@ == Map::<Seq<char>, <V as DeepView>::V>::empty()),
    {
        proof {
            use_type_invariant(self);
            self.lemma_keys();
            if self.entries@.len() == 0 {
                assert(self@ =~= Map::<Seq<char>, <V as DeepView>::V>::empty());
            }
        }
        self.entries.len() == 0
    }

    fn find(&self, k: &str) -> (r: Option<usize>)
        ensures
            match r {
                Some(i) => i < self.entries@.len() && self.entries@[i as int].0@ == k@
                    && self@.contains_key(k@) && self@[k@] == self.entries@[i as int].1.deep_view(),
                None => !self@.contains_key(k@) && forall|j: int|
                    0 <= j < self.entries@.len() ==> (#[trigger] self.entries@[j]).0@ != k@,
            },
    {
        let mut i: usize = 0;
        while i < self.entries.len()
            invariant
                i <= self.entries@.len(),
                forall|j: int| 0 <= j < i ==> (#[trigger] self.entries@[j]).0@ != k@,
            decreases self.entries@.len() - i,
        {
            if text_eq(self.entries[i].0.as_str(), k) {
                proof {
                    use_type_invariant(self);
                    self.lemma_at(i as int);
                }
                return Some(i);
            }
            i += 1;
        }
        proof {
            self.lemma_absent(k@);
        }
        None
    }

    pub fn contains_key(&self, k: &str) -> (r: bool)
        ensures
            r == self@.contains_key(k@),
    {
        self.find(k).is_some()
    }

    pub fn get(&self, k: &str) -> (r: Option<&V>)
        ensures
            match r {
                Some(v) => self@.contains_key(k@) && v.deep_view() == self@[k@],
                None => !self@.contains_key(k@),
            },
    {
        match self.find(k) {
            Some(i) => Some(&self.entries[i].1),
            None => None,
        }
    }

    /// The key at a position of the walk order.
    pub fn key_at(&self, i: usize) -> (r: &String)
        requires
            i < self.key_seq().len(),
        ensures
            r@ == self.key_seq()[i as int],
            self@.contains_key(r@),
    {
        proof {
            use_type_invariant(self);
            self.lemma_at(i as int);
        }
        &self.entries[i].0
    }

    /// The value at a position of the walk order.
    pub fn val_at(&self, i: usize) -> (r: &V)
        requires
            i < self.key_seq().len(),
        ensures
            self@.contains_key(self.key_seq()[i as int]),
            r.deep_view() == self@[self.key_seq()[i as int]],
    {
        proof {
            use_type_invariant(self);
            self.lemma_at(i as int);
        }
        &self.entries[i].1
    }

    /// Binds `k` to `v`, replacing what it was bound to. A new key comes last
    /// in the walk order.
    pub fn insert(&mut self, k: String, v: V)
        ensures
            final(self)@ == old(self)@.insert(k@, v.deep_view()),
            final(self).key_seq() == if old(self)@.contains_key(k@) {
                old(self).key_seq()
            } else {
                old(self).key_seq().push(k@)
            },
    {
        proof {
            use_type_invariant(&*self);
        }
        let ghost before = *self;
        match self.find(k.as_str()) {
            Some(i) => {
                let mut entries: Vec<(String, V)> = Vec::new();
                std::mem::swap(&mut self.entries, &mut entries);
                entries.set(i, (k, v));
                self.entries = entries;
                proof {
                    assert(self.key_seq() =~= before.key_seq());
                    assert forall|x: Seq<char>| #[trigger] self@.contains_key(x) implies self@[x]
                        == before@.insert(k@, v.deep_view())[x] by {
                        let p = key_pos(self.key_seq(), x);
                        assert(self.key_seq()[p] == x);
                        before.lemma_at(p);
                        self.lemma_at(p);
                        if p != i {
                            if p < i {
                                assert(before.entries@[p].0@ != before.entries@[i as int].0@);
                            } else {
                                assert(before.entries@[i as int].0@ != before.entries@[p].0@);
                            }
                        }
                    }
                    assert(self@ =~= before@.insert(k@, v.deep_view()));
                }
            },
            None => {
                let ghost n = self.entries@.len() as int;
                let mut entries: Vec<(String, V)> = Vec::new();
                std::mem::swap(&mut self.entries, &mut entries);
                entries.push((k, v));
                self.entries = entries;
                proof {
                    assert(self.key_seq() =~= before.key_seq().push(k@));
                    assert(self.key_seq()[n] == k@);
                    assert forall|x: Seq<char>| self@.contains_key(x) == before@.insert(
                        k@,
                        v.deep_view(),
                    ).contains_key(x) by {
                        if before@.contains_key(x) {
                            let p = key_pos(before.key_seq(), x);
                            assert(self.key_seq()[p] == x);
                        }
                        if self@.contains_key(x) && x != k@ {
                            let p = key_pos(self.key_seq(), x);
                            assert(before.key_seq()[p] == x);
                        }
                    }
                    assert forall|x: Seq<char>| #[trigger] self@.contains_key(x) implies self@[x]
                        == before@.insert(k@, v.deep_view())[x] by {
                        let p = key_pos(self.key_seq(), x);
                        assert(self.key_seq()[p] == x);
                        self.lemma_at(p);
                        if p < n {
                            before.lemma_at(p);
                        }
                    }
                    assert(self@ =~= before@.insert(k@, v.deep_view()));
                }
            },
        }
    }

    /// Removes the binding of `k` and returns its value.
    pub fn remove(&mut self, k: &str) -> (r: Option<V>)
        ensures
            final(self)@ == old(self)@.remove(k@),
            match r {
                Some(v) => old(self)@.contains_key(k@) && v.deep_view() == old(self)@[k@] && final(
                    self).key_seq() == old(self).key_seq().remove(
                    old(self).key_seq().index_of(k@),
                ),
                None => !old(self)@.contains_key(k@) && final(self).key_seq() == old(self).key_seq(),
            },
    {
        proof {
            use_type_invariant(&*self);
        }
        let ghost before = *self;
        match self.find(k) {
            Some(i) => {
                let mut entries: Vec<(String, V)> = Vec::new();
                std::mem::swap(&mut self.entries, &mut entries);
                let e = entries.remove(i);
                self.entries = entries;
                proof {
                    let i0 = i as int;
                    assert forall|x: Seq<char>| self@.contains_key(x) == before@.remove(
                        k@,
                    ).contains_key(x) by {
                        if self@.contains_key(x) {
                            let p = key_pos(self.key_seq(), x);
                            assert(self.key_seq()[p] == x);
                            let q = if p < i0 {
                                p
                            } else {
                                p + 1
                            };
                            assert(before.key_seq()[q] == x);
                            if q < i0 {
                                assert(before.entries@[q].0@ != before.entries@[i0].0@);
                            } else {
                                assert(before.entries@[i0].0@ != before.entries@[q].0@);
                            }
                        }
                        if before@.contains_key(x) && x != k@ {
                            let q = key_pos(before.key_seq(), x);
                            assert(before.key_seq()[q] == x);
                            assert(q != i0);
                            let p = if q < i0 {
                                q
                            } else {
                                q - 1
                            };
                            assert(self.key_seq()[p] == x);
                        }
                    }
                    assert forall|x: Seq<char>| #[trigger] self@.contains_key(x) implies self@[x]
                        == before@[x] by {
                        let p = key_pos(self.key_seq(), x);
                        assert(self.key_seq()[p] == x);
                        self.lemma_at(p);
                        if p < i0 {
                            before.lemma_at(p);
                        } else {
                            before.lemma_at(p + 1);
                        }
                    }
                    assert(self@ =~= before@.remove(k@));
                    before.lemma_keys();
                    assert(before.key_seq()[i0] == k@);
                    let p = before.key_seq().index_of(k@);
                    assert(before.key_seq()[p] == k@);
                    assert(p == i0);
                    assert(self.key_seq() =~= before.key_seq().remove(i0));
                }
                Some(e.1)
            },
            None => {
                assert(self@ =~= before@.remove(k@));
                None
            },
        }
    }
}

impl<V: Dup> Dup for StrMap<V> {
    fn dup(&self) -> (r: Self) {
        let mut r: StrMap<V> = StrMap::new();
        let mut i: usize = 0;
        let n = self.len();
        while i < n
            invariant
                i <= n,
                n == self.key_seq().len(),
                self.key_seq().no_duplicates(),
                r.key_seq() == self.key_seq().take(i as int),
                forall|k: Seq<char>| self@.contains_key(k) <==> self.key_seq().contains(k),
                forall|k: Seq<char>|
                    #[trigger] r@.contains_key(k) <==> self.key_seq().take(i as int).contains(k),
                forall|k: Seq<char>| #[trigger] r@.contains_key(k) ==> r@[k] == self@[k],
            decreases n - i,
        {
            let k = self.key_at(i).clone();
            let v = self.val_at(i).dup();
            let ghost ks = self.key_seq();
            assert(ks.take(i as int + 1) =~= ks.take(i as int).push(ks[i as int]));
            assert forall|x: Seq<char>|
                ks.take(i as int + 1).contains(x) <==> (ks.take(i as int).contains(x) || x
                    == ks[i as int]) by {
                if ks.take(i as int).contains(x) {
                    let j = ks.take(i as int).index_of(x);
                    assert(ks.take(i as int + 1)[j] == x);
                }
                if x == ks[i as int] {
                    assert(ks.take(i as int + 1)[i as int] == x);
                }
                if ks.take(i as int + 1).contains(x) && x != ks[i as int] {
                    let j = ks.take(i as int + 1).index_of(x);
                    assert(ks.take(i as int)[j] == x);
                }
            }
            r.insert(k, v);
            i += 1;
        }
        assert(self.key_seq().take(n as int) =~= self.key_seq());
        assert(r@ =~= self@);
        r
    }
}

/// A set of texts. Its view is a mathematical set.
#[derive(Debug)]
pub struct StrSet {
    items: StrMap<bool>,
}

impl View for StrSet {
    type V = Set<Seq<char>>;

    closed spec fn view(&self) -> Set<Seq<char>> {
        self.items@.dom()
    }
}

impl DeepView for StrSet {
    type V = Set<Seq<char>>;

    open spec fn deep_view(&self) -> Set<Seq<char>> {
        self.view()
    }
}

impl Dup for StrSet {
    fn dup(&self) -> (r: Self) {
        StrSet { items: self.items.dup() }
    }
}

impl StrSet {
    /// The elements, in the order in which the set walks them.
    pub closed spec fn item_seq(&self) -> Seq<Seq<char>> {
        self.items.key_seq()
    }

    pub fn new() -> (r: Self)
        ensures
            r@ == Set::<Seq<char>>::empty(),
    {
        let r = StrSet { items: StrMap::new() };
        assert(r@ =~= Set::<Seq<char>>::empty());
        r
    }

    /// The number of elements; each occurs once in the walk order.
    pub fn len(&self) -> (n: usize)
        ensures
            n == self@.len(),
            n == self.item_seq().len(),
            self.item_seq().no_duplicates(),
            self.item_seq().to_set() == self@,
    {
        self.items.len()
    }

    pub fn is_empty(&self) -> (r: bool)
        ensures
            r == (self@.len() == 0),
    {
        self.items.is_empty()
    }

    pub fn contains(&self, k: &str) -> (r: bool)
        ensures
            r == self@.contains(k@),
    {
        self.items.contains_key(k)
    }

    /// The element at a position of the walk order.
    pub fn item_at(&self, i: usize) -> (r: &String)
        requires
            i < self.item_seq().len(),
        ensures
            r@ == self.item_seq()[i as int],
            self@.contains(r@),
    {
        self.items.key_at(i)
    }

    pub fn insert(&mut self, k: String)
        ensures
            final(self)@ == old(self)@.insert(k@),
    {
        let ghost before = self@;
        self.items.insert(k, true);
        assert(self@ =~= before.insert(k@));
    }

    pub fn remove(&mut self, k: &str)
        ensures
            final(self)@ == old(self)@.remove(k@),
    {
        let ghost before = self@;
        self.items.remove(k);
        assert(self@ =~= before.remove(k@));
    }
}

} // verus!
