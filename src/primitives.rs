//! Executable primitive lattices: keys, grow-only counters, sets and maps.
use vstd::prelude::*;
use crate::lattice::{Cell, Guarded, Lattice, map_join};

verus! {

/// A value that can key a set or a map: compared and copied by its model.
pub trait Key: Sized {
    type M;

    spec fn key_model(&self) -> Self::M;

    fn key_eq(&self, other: &Self) -> (r: bool)
        ensures
            r == (self.key_model() == other.key_model()),
    ;

    fn key_clone(&self) -> (r: Self)
        ensures
            r.key_model() == self.key_model(),
    ;
}

/// An executable join-semilattice whose values stand for those of `M`.
pub trait Join: Sized {
    type M: Lattice;

    spec fn model(&self) -> Self::M;

    fn join(&self, other: &Self) -> (r: Self)
        ensures
            r.model() == self.model().join(other.model()),
    ;

    fn duplicate(&self) -> (r: Self)
        ensures
            r.model() == self.model(),
    ;

    /// Whether `self` is below `other` in the induced order.
    fn leq(&self, other: &Self) -> (r: bool)
        ensures
            r == self.model().le(other.model()),
    ;
}

/// Relies on `<String as PartialEq>::eq`: true exactly when both strings hold
/// the same characters.
#[verifier::external_body]
fn text_eq(a: &String, b: &String) -> (r: bool)
    ensures
        r == (a@ == b@),
{
    a == b
}

/// Relies on `<String as Clone>::clone`: the copy holds the same characters.
#[verifier::external_body]
pub(crate) fn text_clone(s: &String) -> (r: String)
    ensures
        r@ == s@,
{
    s.clone()
}

impl Key for u64 {
    type M = u64;

    open spec fn key_model(&self) -> u64 {
        *self
    }

    fn key_eq(&self, other: &u64) -> (r: bool) {
        *self == *other
    }

    fn key_clone(&self) -> (r: u64) {
        *self
    }
}

impl Key for String {
    type M = Seq<char>;

    open spec fn key_model(&self) -> Seq<char> {
        self@
    }

    fn key_eq(&self, other: &String) -> (r: bool) {
        text_eq(self, other)
    }

    fn key_clone(&self) -> (r: String) {
        text_clone(self)
    }
}

impl Key for (String, u64) {
    type M = (Seq<char>, u64);

    open spec fn key_model(&self) -> (Seq<char>, u64) {
        (self.0@, self.1)
    }

    fn key_eq(&self, other: &(String, u64)) -> (r: bool) {
        self.1 == other.1 && text_eq(&self.0, &other.0)
    }

    fn key_clone(&self) -> (r: (String, u64)) {
        (text_clone(&self.0), self.1)
    }
}

/// A counter whose join is the maximum.
#[derive(Clone, Copy, Debug, PartialEq, Eq, Structural)]
pub struct Max(pub u64);

impl Join for Max {
    type M = u64;

    open spec fn model(&self) -> u64 {
        self.0
    }

    fn join(&self, other: &Max) -> (r: Max) {
        assert(self.model().join(other.model()) == self.0.join(other.0));
        if self.0 >= other.0 {
            Max(self.0)
        } else {
            Max(other.0)
        }
    }

    fn duplicate(&self) -> (r: Max) {
        Max(self.0)
    }

    fn leq(&self, other: &Max) -> (r: bool) {
        assert(self.model().le(other.model()) == (self.0 <= other.0));
        self.0 <= other.0
    }
}

/// A grow-only set; its model is the set of its items' models.
pub struct GSet<T> {
    pub items: Vec<T>,
}

impl<T: Key> GSet<T> {
    pub open spec fn set_model(&self) -> Set<T::M> {
        Set::new(|m: T::M| exists|i: int| 0 <= i < self.items.len() && self.items[i].key_model() == m)
    }

    /// No item is stored twice.
    pub open spec fn wf(&self) -> bool {
        forall|i: int, j: int|
            0 <= i < j < self.items.len() ==> #[trigger] self.items[i].key_model()
                != #[trigger] self.items[j].key_model()
    }

    pub fn new() -> (r: GSet<T>)
        ensures
            r.wf(),
            r.set_model() == Set::<T::M>::empty(),
    {
        let r = GSet { items: Vec::new() };
        assert(r.set_model() =~= Set::<T::M>::empty());
        r
    }

    pub fn singleton(x: T) -> (r: GSet<T>)
        ensures
            r.wf(),
            r.set_model() == Set::<T::M>::empty().insert(x.key_model()),
    {
        let ghost m = x.key_model();
        let mut items = Vec::new();
        items.push(x);
        let r = GSet { items };
        assert(r.items[0].key_model() == m);
        assert(r.set_model() =~= Set::<T::M>::empty().insert(m));
        r
    }

    /// The number of distinct items.
    pub fn len(&self) -> (r: usize)
        requires
            self.wf(),
        ensures
            self.set_model().finite(),
            r == self.set_model().len(),
    {
        proof {
            let ms = self.items@.map_values(|x: T| x.key_model());
            assert(ms.no_duplicates());
            assert forall|m: T::M| #[trigger] ms.to_set().contains(m) == self.set_model().contains(m) by {
                if self.set_model().contains(m) {
                    let i = choose|i: int| 0 <= i < self.items.len() && self.items[i].key_model() == m;
                    assert(ms[i] == m);
                }
            }
            assert(ms.to_set() =~= self.set_model());
            ms.unique_seq_to_set();
            vstd::seq_lib::seq_to_set_is_finite(ms);
        }
        self.items.len()
    }

    pub fn contains(&self, x: &T) -> (r: bool)
        ensures
            r == self.set_model().contains(x.key_model()),
    {
        let mut i: usize = 0;
        while i < self.items.len()
            invariant
                i <= self.items.len(),
                forall|j: int| 0 <= j < i ==> self.items[j].key_model() != x.key_model(),
            decreases self.items.len() - i,
        {
            if self.items[i].key_eq(x) {
                return true;
            }
            i = i + 1;
        }
        false
    }

    /// Adds one item.
    pub fn insert(&mut self, x: T)
        ensures
            final(self).set_model() == old(self).set_model().insert(x.key_model()),
            old(self).wf() ==> final(self).wf(),
    {
        let ghost m = x.key_model();
        if !self.contains(&x) {
            self.items.push(x);
            let ghost n = self.items.len() - 1;
            assert(self.items[n].key_model() == m);
            assert forall|i: int, j: int| old(self).wf() && 0 <= i < j < self.items.len() implies #[trigger] self.items[i].key_model()
                != #[trigger] self.items[j].key_model() by {
                if j < n {
                    assert(old(self).items[i] == self.items[i] && old(self).items[j] == self.items[j]);
                } else {
                    assert(old(self).items[i] == self.items[i]);
                }
            }
            assert forall|y: T::M| #[trigger] self.set_model().contains(y) implies old(
                self,
            ).set_model().insert(m).contains(y) by {
                let i = choose|i: int| 0 <= i < self.items.len() && self.items[i].key_model() == y;
                if i < n {
                    assert(old(self).items[i] == self.items[i]);
                }
            }
            assert forall|y: T::M| #[trigger] old(self).set_model().contains(y) implies self.set_model().contains(y) by {
                let i = choose|i: int| 0 <= i < old(self).items.len() && old(self).items[i].key_model() == y;
                assert(self.items[i] == old(self).items[i]);
            }
            assert(self.set_model() =~= old(self).set_model().insert(m));
        } else {
            assert(self.set_model() =~= old(self).set_model().insert(m));
        }
    }

    pub fn duplicate_set(&self) -> (r: GSet<T>)
        ensures
            r.wf(),
            r.set_model() == self.set_model(),
    {
        let mut out: GSet<T> = GSet::new();
        let mut i: usize = 0;
        while i < self.items.len()
            invariant
                i <= self.items.len(),
                out.wf(),
                out.set_model() == Set::new(|m: T::M| exists|j: int| 0 <= j < i && self.items[j].key_model() == m),
            decreases self.items.len() - i,
        {
            let x = self.items[i].key_clone();
            out.insert(x);
            i = i + 1;
            assert(out.set_model() =~= Set::new(|m: T::M| exists|j: int| 0 <= j < i && self.items[j].key_model() == m));
        }
        assert(out.set_model() =~= self.set_model());
        out
    }

    pub fn union(&self, other: &GSet<T>) -> (r: GSet<T>)
        ensures
            r.wf(),
            r.set_model() == self.set_model().union(other.set_model()),
    {
        let mut out = self.duplicate_set();
        let mut i: usize = 0;
        while i < other.items.len()
            invariant
                i <= other.items.len(),
                out.wf(),
                out.set_model() == self.set_model().union(Set::new(|m: T::M| exists|j: int| 0 <= j < i && other.items[j].key_model() == m)),
            decreases other.items.len() - i,
        {
            let x = other.items[i].key_clone();
            out.insert(x);
            i = i + 1;
            assert(out.set_model() =~= self.set_model().union(Set::new(|m: T::M| exists|j: int| 0 <= j < i && other.items[j].key_model() == m)));
        }
        assert(out.set_model() =~= self.set_model().union(other.set_model()));
        out
    }
}

impl<T: Key> Join for GSet<T> {
    type M = Set<T::M>;

    open spec fn model(&self) -> Set<T::M> {
        self.set_model()
    }

    fn join(&self, other: &GSet<T>) -> (r: GSet<T>) {
        assert(self.model().join(other.model()) == self.set_model().union(other.set_model()));
        self.union(other)
    }

    fn duplicate(&self) -> (r: GSet<T>) {
        self.duplicate_set()
    }

    fn leq(&self, other: &GSet<T>) -> (r: bool) {
        assert(self.model().le(other.model()) == self.set_model().subset_of(other.set_model()));
        let mut i: usize = 0;
        while i < self.items.len()
            invariant
                i <= self.items.len(),
                forall|j: int| 0 <= j < i ==> other.set_model().contains(#[trigger] self.items@[j].key_model()),
            decreases self.items.len() - i,
        {
            if !other.contains(&self.items[i]) {
                return false;
            }
            i = i + 1;
        }
        true
    }
}

/// The model of a list of entries: the first entry of each key stands.
pub open spec fn entries_model<K: Key, V: Join>(s: Seq<(K, V)>) -> Map<K::M, V::M>
    decreases s.len(),
{
    if s.len() == 0 {
        Map::empty()
    } else {
        let m = entries_model(s.drop_last());
        let e = s.last();
        if m.contains_key(e.0.key_model()) {
            m
        } else {
            m.insert(e.0.key_model(), e.1.model())
        }
    }
}

pub open spec fn keys_distinct<K: Key, V>(s: Seq<(K, V)>) -> bool {
    forall|i: int, j: int|
        0 <= i < j < s.len() ==> #[trigger] s[i].0.key_model() != #[trigger] s[j].0.key_model()
}

pub proof fn lemma_entries_dom<K: Key, V: Join>(s: Seq<(K, V)>, k: K::M)
    ensures
        entries_model(s).contains_key(k) <==> exists|i: int|
            0 <= i < s.len() && #[trigger] s[i].0.key_model() == k,
    decreases s.len(),
{
    if s.len() > 0 {
        lemma_entries_dom(s.drop_last(), k);
        if exists|i: int| 0 <= i < s.len() && #[trigger] s[i].0.key_model() == k {
            let i = choose|i: int| 0 <= i < s.len() && #[trigger] s[i].0.key_model() == k;
            if i < s.len() - 1 {
                assert(s.drop_last()[i] == s[i]);
            }
        }
        if exists|i: int| 0 <= i < s.len() - 1 && #[trigger] s.drop_last()[i].0.key_model() == k {
            let i = choose|i: int| 0 <= i < s.len() - 1 && #[trigger] s.drop_last()[i].0.key_model() == k;
            assert(s[i] == s.drop_last()[i]);
        }
    }
}

pub proof fn lemma_entries_first<K: Key, V: Join>(s: Seq<(K, V)>, i: int)
    requires
        0 <= i < s.len(),
        forall|j: int| 0 <= j < i ==> #[trigger] s[j].0.key_model() != s[i].0.key_model(),
    ensures
        entries_model(s).contains_key(s[i].0.key_model()),
        entries_model(s)[s[i].0.key_model()] == s[i].1.model(),
    decreases s.len(),
{
    let k = s[i].0.key_model();
    if i == s.len() - 1 {
        lemma_entries_dom(s.drop_last(), k);
        if exists|j: int| 0 <= j < s.len() - 1 && #[trigger] s.drop_last()[j].0.key_model() == k {
            let j = choose|j: int| 0 <= j < s.len() - 1 && #[trigger] s.drop_last()[j].0.key_model() == k;
            assert(s[j] == s.drop_last()[j]);
        }
    } else {
        let d = s.drop_last();
        assert forall|j: int| 0 <= j < i implies #[trigger] d[j].0.key_model() != d[i].0.key_model() by {
            assert(d[j] == s[j]);
        }
        lemma_entries_first(d, i);
    }
}

pub proof fn lemma_entries_len<K: Key, V: Join>(s: Seq<(K, V)>)
    requires
        keys_distinct(s),
    ensures
        entries_model(s).dom().len() == s.len(),
        entries_model(s).dom().finite(),
    decreases s.len(),
{
    if s.len() > 0 {
        let d = s.drop_last();
        assert(keys_distinct(d)) by {
            assert forall|i: int, j: int| 0 <= i < j < d.len() implies #[trigger] d[i].0.key_model() != #[trigger] d[j].0.key_model() by {
                assert(d[i] == s[i] && d[j] == s[j]);
            }
        }
        lemma_entries_len(d);
        lemma_entries_dom(d, s.last().0.key_model());
        if exists|j: int| 0 <= j < d.len() && #[trigger] d[j].0.key_model() == s.last().0.key_model() {
            let j = choose|j: int| 0 <= j < d.len() && #[trigger] d[j].0.key_model() == s.last().0.key_model();
            assert(d[j] == s[j]);
            assert(s[j].0.key_model() != s[s.len() - 1].0.key_model());
        }
    }
}

/// A grow-only map: its model is a map from key models to value models, in
/// which an absent key stands for the bottom value.
pub struct GMap<K, V> {
    pub entries: Vec<(K, V)>,
}

impl<K: Key, V: Join> GMap<K, V> {
    pub open spec fn map_model(&self) -> Map<K::M, V::M> {
        entries_model(self.entries@)
    }

    pub open spec fn wf(&self) -> bool {
        keys_distinct(self.entries@)
    }

    pub fn new() -> (r: GMap<K, V>)
        ensures
            r.wf(),
            r.map_model() == Map::<K::M, V::M>::empty(),
    {
        let r = GMap { entries: Vec::new() };
        assert(r.entries@.len() == 0);
        r
    }

    /// The index of the entry for `k`, if there is one.
    pub fn find(&self, k: &K) -> (r: Option<usize>)
        ensures
            r is None ==> !self.map_model().contains_key(k.key_model()),
            r matches Some(i) ==> i < self.entries.len() && self.entries[i as int].0.key_model()
                == k.key_model() && self.map_model().contains_key(k.key_model())
                && self.map_model()[k.key_model()] == self.entries[i as int].1.model()
                && forall|t: int| 0 <= t < i ==> #[trigger] self.entries[t].0.key_model() != k.key_model(),
    {
        let mut i: usize = 0;
        while i < self.entries.len()
            invariant
                i <= self.entries.len(),
                forall|j: int| 0 <= j < i ==> #[trigger] self.entries[j].0.key_model() != k.key_model(),
            decreases self.entries.len() - i,
        {
            if self.entries[i].0.key_eq(k) {
                proof {
                    lemma_entries_first(self.entries@, i as int);
                }
                return Some(i);
            }
            i = i + 1;
        }
        proof {
            lemma_entries_dom(self.entries@, k.key_model());
        }
        None
    }

    pub fn contains_key(&self, k: &K) -> (r: bool)
        ensures
            r == self.map_model().contains_key(k.key_model()),
    {
        self.find(k).is_some()
    }

    pub fn get(&self, k: &K) -> (r: Option<&V>)
        ensures
            r is None ==> !self.map_model().contains_key(k.key_model()),
            r matches Some(v) ==> self.map_model().contains_key(k.key_model())
                && self.map_model()[k.key_model()] == v.model(),
    {
        match self.find(k) {
            Some(i) => Some(&self.entries[i].1),
            None => None,
        }
    }

    pub fn len(&self) -> (r: usize)
        requires
            self.wf(),
        ensures
            r == self.map_model().dom().len(),
            self.map_model().dom().finite(),
    {
        proof {
            lemma_entries_len(self.entries@);
        }
        self.entries.len()
    }

    /// Adds `k ↦ v` where `k` is absent; keeps the map as it is otherwise.
    fn push_if_absent(&mut self, k: K, v: V)
        requires
            old(self).wf(),
        ensures
            final(self).wf(),
            old(self).map_model().contains_key(k.key_model()) ==> final(self).map_model() == old(
                self,
            ).map_model(),
            !old(self).map_model().contains_key(k.key_model()) ==> final(self).map_model() == old(
                self,
            ).map_model().insert(k.key_model(), v.model()),
    {
        if self.find(&k).is_none() {
            let ghost km = k.key_model();
            let ghost vm = v.model();
            let ghost s0 = self.entries@;
            self.entries.push((k, v));
            proof {
                let s = self.entries@;
                assert(s.drop_last() =~= s0);
                assert forall|j: int| 0 <= j < s0.len() implies s[j].0.key_model() != km by {
                    assert(s[j] == s0[j]);
                    lemma_entries_dom(s0, km);
                }
                assert forall|i: int, j: int| 0 <= i < j < s.len() implies #[trigger] s[i].0.key_model() != #[trigger] s[j].0.key_model() by {
                    if j < s0.len() {
                        assert(s[i] == s0[i] && s[j] == s0[j]);
                    }
                }
            }
        }
    }

    pub fn singleton(k: K, v: V) -> (r: GMap<K, V>)
        ensures
            r.wf(),
            r.map_model() == Map::<K::M, V::M>::empty().insert(k.key_model(), v.model()),
    {
        let mut r = GMap::new();
        r.push_if_absent(k, v);
        r
    }

    /// Joins `v` into the value at `k`.
    pub fn join_entry(&mut self, k: K, v: V)
        ensures
            final(self).wf(),
            final(self).map_model() == old(self).map_model().join(
                Map::<K::M, V::M>::empty().insert(k.key_model(), v.model()),
            ),
    {
        let single = GMap::singleton(k, v);
        *self = self.join_maps(&single);
    }

    pub fn join_maps(&self, other: &GMap<K, V>) -> (r: GMap<K, V>)
        ensures
            r.wf(),
            r.map_model() == map_join(self.map_model(), other.map_model()),
    {
        let ghost target = map_join(self.map_model(), other.map_model());
        let mut out: GMap<K, V> = GMap::new();
        let mut i: usize = 0;
        while i < self.entries.len()
            invariant
                i <= self.entries.len(),
                out.wf(),
                target == map_join(self.map_model(), other.map_model()),
                out.map_model() == target.restrict(entries_model(self.entries@.subrange(0, i as int)).dom()),
            decreases self.entries.len() - i,
        {
            let k = &self.entries[i].0;
            let ghost km = k.key_model();
            let ghost pre = self.entries@.subrange(0, i as int);
            let ghost pre1 = self.entries@.subrange(0, i as int + 1);
            proof {
                assert(pre1.drop_last() =~= pre);
                assert(pre1.last() == self.entries@[i as int]);
                lemma_entries_dom(self.entries@, km);
            }
            if !out.contains_key(k) {
                proof {
                    lemma_entries_dom(pre, km);
                    assert forall|j: int| 0 <= j < i implies #[trigger] self.entries@[j].0.key_model() != km by {
                        assert(pre[j] == self.entries@[j]);
                    }
                    lemma_entries_first(self.entries@, i as int);
                }
                let v = match other.get(k) {
                    Some(w) => self.entries[i].1.join(w),
                    None => self.entries[i].1.duplicate(),
                };
                out.push_if_absent(k.key_clone(), v);
            }
            i = i + 1;
            proof {
                assert(out.map_model() =~= target.restrict(entries_model(pre1).dom()));
            }
        }
        assert(self.entries@.subrange(0, self.entries.len() as int) =~= self.entries@);
        let mut j: usize = 0;
        while j < other.entries.len()
            invariant
                j <= other.entries.len(),
                out.wf(),
                target == map_join(self.map_model(), other.map_model()),
                out.map_model() == target.restrict(self.map_model().dom().union(entries_model(other.entries@.subrange(0, j as int)).dom())),
            decreases other.entries.len() - j,
        {
            let k = &other.entries[j].0;
            let ghost km = k.key_model();
            let ghost pre = other.entries@.subrange(0, j as int);
            let ghost pre1 = other.entries@.subrange(0, j as int + 1);
            proof {
                assert(pre1.drop_last() =~= pre);
                assert(pre1.last() == other.entries@[j as int]);
                lemma_entries_dom(other.entries@, km);
            }
            if !out.contains_key(k) {
                proof {
                    lemma_entries_dom(pre, km);
                    assert forall|t: int| 0 <= t < j implies #[trigger] other.entries@[t].0.key_model() != km by {
                        assert(pre[t] == other.entries@[t]);
                    }
                    lemma_entries_first(other.entries@, j as int);
                }
                let v = other.entries[j].1.duplicate();
                out.push_if_absent(k.key_clone(), v);
            }
            j = j + 1;
            proof {
                assert(out.map_model() =~= target.restrict(self.map_model().dom().union(entries_model(pre1).dom())));
            }
        }
        assert(other.entries@.subrange(0, other.entries.len() as int) =~= other.entries@);
        assert(out.map_model() =~= target);
        out
    }
}

impl<K: Key, V: Join> Join for GMap<K, V> {
    type M = Map<K::M, V::M>;

    open spec fn model(&self) -> Map<K::M, V::M> {
        self.map_model()
    }

    fn join(&self, other: &GMap<K, V>) -> (r: GMap<K, V>) {
        assert(self.model().join(other.model()) == map_join(self.map_model(), other.map_model()));
        self.join_maps(other)
    }

    fn duplicate(&self) -> (r: GMap<K, V>) {
        let empty = GMap::new();
        let r = self.join_maps(&empty);
        assert(r.map_model() =~= self.map_model());
        r
    }

    fn leq(&self, other: &GMap<K, V>) -> (r: bool) {
        let ghost a = self.map_model();
        let ghost b = other.map_model();
        assert(self.model().le(other.model()) == (forall|k: K::M| #[trigger]
            a.contains_key(k) ==> b.contains_key(k) && a[k].le(b[k])));
        let mut i: usize = 0;
        while i < self.entries.len()
            invariant
                i <= self.entries.len(),
                a == self.map_model(),
                b == other.map_model(),
                forall|j: int| 0 <= j < i ==> b.contains_key(#[trigger] self.entries@[j].0.key_model())
                    && a[self.entries@[j].0.key_model()].le(b[self.entries@[j].0.key_model()]),
            decreases self.entries.len() - i,
        {
            let k = &self.entries[i].0;
            match self.find(k) {
                Some(f) => {
                    match other.get(k) {
                        Some(w) => {
                            if !self.entries[f].1.leq(w) {
                                return false;
                            }
                        },
                        None => {
                            return false;
                        },
                    }
                },
                None => {
                    proof {
                        lemma_entries_dom(self.entries@, k.key_model());
                    }
                },
            }
            i = i + 1;
        }
        proof {
            assert forall|k: K::M| #[trigger] a.contains_key(k) implies b.contains_key(k) && a[k].le(b[k]) by {
                lemma_entries_dom(self.entries@, k);
                let j = choose|j: int| 0 <= j < self.entries.len() && #[trigger] self.entries@[j].0.key_model() == k;
            }
        }
        true
    }
}

/// A value under a guard; see `Guarded` for its join.
pub struct GuardedPair<V> {
    pub guard: Max,
    pub value: V,
}

impl<V: Join> Join for GuardedPair<V> {
    type M = Guarded<V::M>;

    open spec fn model(&self) -> Guarded<V::M> {
        Guarded { guard: self.guard.0, value: self.value.model() }
    }

    fn join(&self, other: &GuardedPair<V>) -> (r: GuardedPair<V>) {
        let ghost a = Guarded { guard: self.guard.0, value: self.value.model() };
        let ghost b = Guarded { guard: other.guard.0, value: other.value.model() };
        assert(self.model().join(other.model()) == a.join(b));
        if self.guard.0 > other.guard.0 {
            self.duplicate()
        } else if other.guard.0 > self.guard.0 {
            other.duplicate()
        } else {
            GuardedPair { guard: Max(self.guard.0), value: self.value.join(&other.value) }
        }
    }

    fn duplicate(&self) -> (r: GuardedPair<V>) {
        GuardedPair { guard: Max(self.guard.0), value: self.value.duplicate() }
    }

    fn leq(&self, other: &GuardedPair<V>) -> (r: bool) {
        let ghost a = Guarded { guard: self.guard.0, value: self.value.model() };
        let ghost b = Guarded { guard: other.guard.0, value: other.value.model() };
        assert(self.model().le(other.model()) == a.le(b));
        self.guard.0 < other.guard.0 || (self.guard.0 == other.guard.0 && self.value.leq(&other.value))
    }
}

/// A text cell that may be redacted; see `Cell` for its join.
pub enum Redactable {
    Data(String),
    Redacted,
}

impl Join for Redactable {
    type M = Cell;

    open spec fn model(&self) -> Cell {
        match self {
            Redactable::Data(t) => Cell::Live(t@),
            Redactable::Redacted => Cell::Tombstone,
        }
    }

    fn join(&self, other: &Redactable) -> (r: Redactable) {
        let ghost a = match self {
            Redactable::Data(t) => Cell::Live(t@),
            Redactable::Redacted => Cell::Tombstone,
        };
        let ghost b = match other {
            Redactable::Data(t) => Cell::Live(t@),
            Redactable::Redacted => Cell::Tombstone,
        };
        assert(self.model().join(other.model()) == a.join(b));
        match (self, other) {
            (Redactable::Data(a), Redactable::Data(b)) => {
                if text_eq(a, b) {
                    Redactable::Data(text_clone(a))
                } else {
                    Redactable::Redacted
                }
            },
            _ => Redactable::Redacted,
        }
    }

    fn duplicate(&self) -> (r: Redactable) {
        match self {
            Redactable::Data(t) => Redactable::Data(text_clone(t)),
            Redactable::Redacted => Redactable::Redacted,
        }
    }

    fn leq(&self, other: &Redactable) -> (r: bool) {
        let ghost a = match self {
            Redactable::Data(t) => Cell::Live(t@),
            Redactable::Redacted => Cell::Tombstone,
        };
        let ghost b = match other {
            Redactable::Data(t) => Cell::Live(t@),
            Redactable::Redacted => Cell::Tombstone,
        };
        assert(self.model().le(other.model()) == a.le(b));
        match (self, other) {
            (_, Redactable::Redacted) => true,
            (Redactable::Data(x), Redactable::Data(y)) => text_eq(x, y),
            (Redactable::Redacted, Redactable::Data(_)) => false,
        }
    }
}

impl Redactable {
    pub fn is_redacted(&self) -> (r: bool)
        ensures
            r == (self.model() is Tombstone),
    {
        match self {
            Redactable::Data(_) => false,
            Redactable::Redacted => true,
        }
    }
}

} // verus!
