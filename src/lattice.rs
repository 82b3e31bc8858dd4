//! Join-semilattices in the abstract, and the primitive lattices of the model.
use vstd::prelude::*;

verus! {

/// A join-semilattice over mathematical values. `le` is the partial order
/// that the join induces, stated independently of `join`.
pub trait Lattice: Sized {
    spec fn join(self, other: Self) -> Self;

    spec fn le(self, other: Self) -> bool;

    proof fn lemma_join_idempotent(a: Self)
        ensures
            a.join(a) == a,
    ;

    proof fn lemma_join_commutative(a: Self, b: Self)
        ensures
            a.join(b) == b.join(a),
    ;

    proof fn lemma_join_associative(a: Self, b: Self, c: Self)
        ensures
            a.join(b).join(c) == a.join(b.join(c)),
    ;

    proof fn lemma_le_iff_join(a: Self, b: Self)
        ensures
            a.le(b) <==> a.join(b) == b,
    ;
}

/// A counter that only grows: the join is the maximum.
impl Lattice for u64 {
    open spec fn join(self, other: u64) -> u64 {
        if self >= other { self } else { other }
    }

    open spec fn le(self, other: u64) -> bool {
        self <= other
    }

    proof fn lemma_join_idempotent(a: u64) {
    }

    proof fn lemma_join_commutative(a: u64, b: u64) {
    }

    proof fn lemma_join_associative(a: u64, b: u64, c: u64) {
    }

    proof fn lemma_le_iff_join(a: u64, b: u64) {
    }
}

/// A grow-only set: the join is the union.
impl<T> Lattice for Set<T> {
    open spec fn join(self, other: Set<T>) -> Set<T> {
        self.union(other)
    }

    open spec fn le(self, other: Set<T>) -> bool {
        self.subset_of(other)
    }

    proof fn lemma_join_idempotent(a: Set<T>) {
        assert(a.union(a) =~= a);
    }

    proof fn lemma_join_commutative(a: Set<T>, b: Set<T>) {
        assert(a.union(b) =~= b.union(a));
    }

    proof fn lemma_join_associative(a: Set<T>, b: Set<T>, c: Set<T>) {
        assert(a.union(b).union(c) =~= a.union(b.union(c)));
    }

    proof fn lemma_le_iff_join(a: Set<T>, b: Set<T>) {
        if a.subset_of(b) {
            assert(a.union(b) =~= b);
        }
        if a.union(b) == b {
            assert forall|x: T| a.contains(x) implies b.contains(x) by {
                assert(a.union(b).contains(x));
            }
        }
    }
}

/// The join of two grow-only maps: the union of the keys, with the values of
/// shared keys joined. An absent key stands for the bottom value.
pub open spec fn map_join<K, V: Lattice>(a: Map<K, V>, b: Map<K, V>) -> Map<K, V> {
    Map::new(
        |k: K| a.contains_key(k) || b.contains_key(k),
        |k: K|
            if a.contains_key(k) && b.contains_key(k) {
                a[k].join(b[k])
            } else if a.contains_key(k) {
                a[k]
            } else {
                b[k]
            },
    )
}

impl<K, V: Lattice> Lattice for Map<K, V> {
    open spec fn join(self, other: Map<K, V>) -> Map<K, V> {
        map_join(self, other)
    }

    open spec fn le(self, other: Map<K, V>) -> bool {
        forall|k: K| #[trigger]
            self.contains_key(k) ==> other.contains_key(k) && self[k].le(other[k])
    }

    proof fn lemma_join_idempotent(a: Map<K, V>) {
        assert forall|k: K| a.contains_key(k) implies #[trigger] map_join(a, a)[k] == a[k] by {
            V::lemma_join_idempotent(a[k]);
        }
        assert(map_join(a, a) =~= a);
    }

    proof fn lemma_join_commutative(a: Map<K, V>, b: Map<K, V>) {
        assert forall|k: K| a.contains_key(k) && b.contains_key(k) implies #[trigger] map_join(
            a,
            b,
        )[k] == map_join(b, a)[k] by {
            V::lemma_join_commutative(a[k], b[k]);
        }
        assert(map_join(a, b) =~= map_join(b, a));
    }

    proof fn lemma_join_associative(a: Map<K, V>, b: Map<K, V>, c: Map<K, V>) {
        let l = map_join(map_join(a, b), c);
        let r = map_join(a, map_join(b, c));
        assert forall|k: K| #[trigger] l.contains_key(k) implies r.contains_key(k) && l[k]
            == r[k] by {
            if a.contains_key(k) && b.contains_key(k) && c.contains_key(k) {
                V::lemma_join_associative(a[k], b[k], c[k]);
            }
        }
        assert(l =~= r);
    }

    proof fn lemma_le_iff_join(a: Map<K, V>, b: Map<K, V>) {
        let j = map_join(a, b);
        assert forall|k: K| a.contains_key(k) && b.contains_key(k) implies (a[k].le(b[k])
            <==> #[trigger] j[k] == b[k]) by {
            V::lemma_le_iff_join(a[k], b[k]);
        }
        if a.le(b) {
            assert(j =~= b);
        }
        if j == b {
            assert forall|k: K| #[trigger] a.contains_key(k) implies b.contains_key(k) && a[k].le(
                b[k],
            ) by {
                assert(j.contains_key(k));
            }
        }
    }
}

/// A value under a guard: a strictly greater guard supersedes the other side
/// whole; under equal guards the values are joined.
pub struct Guarded<V> {
    pub guard: u64,
    pub value: V,
}

impl<V: Lattice> Lattice for Guarded<V> {
    open spec fn join(self, other: Guarded<V>) -> Guarded<V> {
        if self.guard > other.guard {
            self
        } else if other.guard > self.guard {
            other
        } else {
            Guarded { guard: self.guard, value: self.value.join(other.value) }
        }
    }

    open spec fn le(self, other: Guarded<V>) -> bool {
        self.guard < other.guard || (self.guard == other.guard && self.value.le(other.value))
    }

    proof fn lemma_join_idempotent(a: Guarded<V>) {
        V::lemma_join_idempotent(a.value);
    }

    proof fn lemma_join_commutative(a: Guarded<V>, b: Guarded<V>) {
        V::lemma_join_commutative(a.value, b.value);
    }

    proof fn lemma_join_associative(a: Guarded<V>, b: Guarded<V>, c: Guarded<V>) {
        V::lemma_join_associative(a.value, b.value, c.value);
        V::lemma_join_associative(a.value, b.value, c.value);
    }

    proof fn lemma_le_iff_join(a: Guarded<V>, b: Guarded<V>) {
        V::lemma_le_iff_join(a.value, b.value);
    }
}

/// A cell that holds text or a tombstone. The tombstone absorbs everything;
/// two live cells with different text are in conflict, and the conflict
/// resolves to the tombstone, so that no reader sees an arbitrary winner.
pub enum Cell {
    Live(Seq<char>),
    Tombstone,
}

impl Lattice for Cell {
    open spec fn join(self, other: Cell) -> Cell {
        match (self, other) {
            (Cell::Live(a), Cell::Live(b)) => if a == b {
                Cell::Live(a)
            } else {
                Cell::Tombstone
            },
            _ => Cell::Tombstone,
        }
    }

    open spec fn le(self, other: Cell) -> bool {
        self == other || other is Tombstone
    }

    proof fn lemma_join_idempotent(a: Cell) {
    }

    proof fn lemma_join_commutative(a: Cell, b: Cell) {
    }

    proof fn lemma_join_associative(a: Cell, b: Cell, c: Cell) {
    }

    proof fn lemma_le_iff_join(a: Cell, b: Cell) {
    }
}

} // verus!
