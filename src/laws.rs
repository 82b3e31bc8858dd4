//! The algebraic laws of the model, stated and proved once for all values.
use vstd::prelude::*;
use crate::actor::{counter_of, react_step, shared_of, tag_add_step, tag_remove_step, tags_added, tags_removed};
use crate::detailed::{
    DetailedM, backref_part, join_all, lemma_join_all_empty, lemma_join_all_insert, root_parts, slice_parts,
};
use crate::lattice::{Cell, Lattice};
use crate::schema::{MessageKey, SharedM, SliceM};

verus! {

/// Joining a value with itself gives it back.
pub proof fn law_join_idempotent<L: Lattice>(x: L)
    ensures
        x.join(x) == x,
{
    L::lemma_join_idempotent(x);
}

/// The order of the two sides of a join does not matter.
pub proof fn law_join_commutative<L: Lattice>(x: L, y: L)
    ensures
        x.join(y) == y.join(x),
{
    L::lemma_join_commutative(x, y);
}

/// The grouping of joins does not matter.
pub proof fn law_join_associative<L: Lattice>(x: L, y: L, z: L)
    ensures
        x.join(y).join(z) == x.join(y.join(z)),
{
    L::lemma_join_associative(x, y, z);
}

/// `x ≤ y` exactly when joining `x` into `y` leaves `y` as it is.
pub proof fn law_order_agrees_with_join<L: Lattice>(x: L, y: L)
    ensures
        x.le(y) <==> x.join(y) == y,
{
    L::lemma_le_iff_join(x, y);
}

/// A join is above its right side.
pub proof fn law_join_upper_bound<L: Lattice>(x: L, y: L)
    ensures
        y.le(x.join(y)),
{
    L::lemma_join_associative(y, x, y);
    L::lemma_join_commutative(y, x);
    L::lemma_join_associative(x, y, y);
    L::lemma_join_idempotent(y);
    L::lemma_le_iff_join(y, x.join(y));
}

/// Folding one set of parts and then another is folding their union.
pub proof fn law_join_all_union(d: DetailedM, p: Set<DetailedM>, q: Set<DetailedM>)
    requires
        p.finite(),
        q.finite(),
    ensures
        join_all(join_all(d, p), q) == join_all(d, p.union(q)),
    decreases q.len(),
{
    if q.len() == 0 {
        assert(q =~= Set::empty());
        lemma_join_all_empty(join_all(d, p));
        assert(p.union(q) =~= p);
    } else {
        let x = q.choose();
        let q2 = q.remove(x);
        assert(q2.insert(x) =~= q);
        law_join_all_union(d, p, q2);
        lemma_join_all_insert(join_all(d, p), q2, x);
        lemma_join_all_insert(d, p.union(q2), x);
        assert(p.union(q2).insert(x) =~= p.union(q));
    }
}

/// Materializing is independent of the order of actors, and may go
/// incrementally: folding the actors of `r1`, then those of `r2`, in either
/// order, gives what folding both at once gives.
pub proof fn law_fold_order_independent(d: DetailedM, r1: Map<Seq<char>, SliceM>, r2: Map<Seq<char>, SliceM>)
    requires
        r1.dom().disjoint(r2.dom()),
        root_parts(r1).finite(),
        root_parts(r2).finite(),
    ensures
        join_all(join_all(d, root_parts(r1)), root_parts(r2)) == join_all(d, root_parts(r1.union_prefer_right(r2))),
        join_all(join_all(d, root_parts(r1)), root_parts(r2)) == join_all(join_all(d, root_parts(r2)), root_parts(r1)),
{
    let r = r1.union_prefer_right(r2);
    assert forall|p: DetailedM| #[trigger] root_parts(r).contains(p) implies root_parts(r1).union(root_parts(r2)).contains(p) by {
        let a = choose|a: Seq<char>| r.contains_key(a) && #[trigger] slice_parts(a, r[a]).contains(p);
        if r2.contains_key(a) {
            assert(root_parts(r2).contains(p));
        } else {
            assert(root_parts(r1).contains(p));
        }
    }
    assert forall|p: DetailedM| #[trigger] root_parts(r1).union(root_parts(r2)).contains(p) implies root_parts(r).contains(p) by {
        if root_parts(r1).contains(p) {
            let a = choose|a: Seq<char>| r1.contains_key(a) && #[trigger] slice_parts(a, r1[a]).contains(p);
            assert(!r2.contains_key(a));
            assert(slice_parts(a, r[a]).contains(p));
        } else {
            let a = choose|a: Seq<char>| r2.contains_key(a) && #[trigger] slice_parts(a, r2[a]).contains(p);
            assert(slice_parts(a, r[a]).contains(p));
        }
    }
    assert(root_parts(r) =~= root_parts(r1).union(root_parts(r2)));
    law_join_all_union(d, root_parts(r1), root_parts(r2));
    law_join_all_union(d, root_parts(r2), root_parts(r1));
    assert(root_parts(r1).union(root_parts(r2)) =~= root_parts(r2).union(root_parts(r1)));
}

/// Every part of a fold stands below its result.
pub proof fn law_join_all_above_parts(d: DetailedM, parts: Set<DetailedM>, p: DetailedM)
    requires
        parts.finite(),
        parts.contains(p),
    ensures
        p.le(join_all(d, parts)),
{
    let rest = parts.remove(p);
    assert(rest.insert(p) =~= parts);
    lemma_join_all_insert(d, rest, p);
    law_join_upper_bound(join_all(d, rest), p);
}

/// A reply edge always shows up as a back-reference on its parent once a
/// root that holds it is folded.
pub proof fn law_backref_complete(
    d: DetailedM,
    r: Map<Seq<char>, SliceM>,
    actor: Seq<char>,
    id: u64,
    parent: MessageKey,
)
    requires
        root_parts(r).finite(),
        r.contains_key(actor),
        r[actor].owned.contains_key(id),
        r[actor].owned[id].reply_to.contains(parent),
    ensures
        join_all(d, root_parts(r)).messages.contains_key(parent.0),
        join_all(d, root_parts(r)).messages[parent.0].contains_key(parent.1),
        join_all(d, root_parts(r)).messages[parent.0][parent.1].backrefs.contains((actor, id)),
{
    let bp = backref_part(actor, id, parent);
    assert(slice_parts(actor, r[actor]).contains(bp));
    assert(root_parts(r).contains(bp));
    law_join_all_above_parts(d, root_parts(r), bp);
    let x = join_all(d, root_parts(r));
    assert(bp.messages.contains_key(parent.0));
    assert(bp.messages[parent.0].contains_key(parent.1));
}

/// Once a version is tombstoned, no join brings it back to life.
pub proof fn law_tombstone_absorbs(content: Map<u64, Cell>, other: Map<u64, Cell>, version: u64)
    requires
        content.contains_key(version),
        content[version] is Tombstone,
    ensures
        content.join(other)[version] is Tombstone,
        other.join(content)[version] is Tombstone,
{
}

/// Reacting never lowers the stored counter.
pub proof fn law_react_monotone(counter: u64, want: bool)
    ensures
        react_step(counter, want) >= counter,
{
}

/// No step of a tag's counter goes down.
pub proof fn law_tag_steps_monotone(counter: u64)
    ensures
        tag_add_step(counter) >= counter,
        tag_remove_step(counter) >= counter,
{
}

/// What `adjust_tags` stores never lowers a counter of the annotation.
pub proof fn law_adjust_tags_monotone(
    shared: Map<MessageKey, SharedM>,
    k: MessageKey,
    add: Seq<String>,
    remove: Seq<String>,
    t: Seq<char>,
)
    ensures
        ({
            let old_s = shared_of(shared, k);
            let after = shared.join(
                Map::<MessageKey, SharedM>::empty().insert(
                    k,
                    SharedM { tags: tags_removed(tags_added(old_s.tags, add), remove), reactions: old_s.reactions },
                ),
            );
            counter_of(shared_of(after, k).tags, t) >= counter_of(old_s.tags, t)
        }),
{
    let old_s = shared_of(shared, k);
    let x = tags_removed(tags_added(old_s.tags, add), remove);
    if old_s.tags.contains_key(t) && x.contains_key(t) {
        assert(old_s.tags.join(x)[t] >= old_s.tags[t]);
    }
}

} // verus!
