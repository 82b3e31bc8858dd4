//! The partial order that a join induces, and the rule that combines the
//! orders of a product's fields into the order of the product.
use vstd::prelude::*;
use core::cmp::Ordering;
use crate::detailed::DetailedM;
use crate::lattice::Lattice;
use crate::primitives::Join;
use crate::schema::{OwnedM, SliceM};

verus! {

/// How `a` stands to `b`: equal, below, above, or incomparable.
pub open spec fn order_of<L: Lattice>(a: L, b: L) -> Option<Ordering> {
    if a.le(b) && b.le(a) {
        Some(Ordering::Equal)
    } else if a.le(b) {
        Some(Ordering::Less)
    } else if b.le(a) {
        Some(Ordering::Greater)
    } else {
        None
    }
}

/// The order of a product from those of its fields: all equal gives equal;
/// equal or less throughout, with one less, gives less; the mirror gives
/// greater; anything else is incomparable. No fields compare equal.
pub open spec fn combined(orders: Seq<Option<Ordering>>) -> Option<Ordering> {
    if forall|i: int| 0 <= i < orders.len() ==> #[trigger] orders[i] == Some(Ordering::Equal) {
        Some(Ordering::Equal)
    } else if forall|i: int| 0 <= i < orders.len() ==> (#[trigger] orders[i] == Some(Ordering::Equal)
        || orders[i] == Some(Ordering::Less)) {
        Some(Ordering::Less)
    } else if forall|i: int| 0 <= i < orders.len() ==> (#[trigger] orders[i] == Some(Ordering::Equal)
        || orders[i] == Some(Ordering::Greater)) {
        Some(Ordering::Greater)
    } else {
        None
    }
}

/// Compares two values in the order their join induces.
pub fn compare<T: Join>(a: &T, b: &T) -> (r: Option<Ordering>)
    ensures
        r == order_of(a.model(), b.model()),
{
    let ab = a.leq(b);
    let ba = b.leq(a);
    if ab && ba {
        Some(Ordering::Equal)
    } else if ab {
        Some(Ordering::Less)
    } else if ba {
        Some(Ordering::Greater)
    } else {
        None
    }
}

/// Combines the orders of a product's fields.
pub fn combine_orders(orders: &Vec<Option<Ordering>>) -> (r: Option<Ordering>)
    ensures
        r == combined(orders@),
{
    let mut all_eq = true;
    let mut no_greater = true;
    let mut no_less = true;
    let mut i: usize = 0;
    while i < orders.len()
        invariant
            i <= orders.len(),
            all_eq == forall|j: int| 0 <= j < i ==> #[trigger] orders@[j] == Some(Ordering::Equal),
            no_greater == forall|j: int| 0 <= j < i ==> (#[trigger] orders@[j] == Some(Ordering::Equal)
                || orders@[j] == Some(Ordering::Less)),
            no_less == forall|j: int| 0 <= j < i ==> (#[trigger] orders@[j] == Some(Ordering::Equal)
                || orders@[j] == Some(Ordering::Greater)),
        decreases orders.len() - i,
    {
        match orders[i] {
            Some(Ordering::Equal) => {},
            Some(Ordering::Less) => {
                all_eq = false;
                no_less = false;
            },
            Some(Ordering::Greater) => {
                all_eq = false;
                no_greater = false;
            },
            None => {
                all_eq = false;
                no_greater = false;
                no_less = false;
            },
        }
        i = i + 1;
    }
    if all_eq {
        Some(Ordering::Equal)
    } else if no_greater {
        Some(Ordering::Less)
    } else if no_less {
        Some(Ordering::Greater)
    } else {
        None
    }
}

/// An owned item's order is the combination of its fields' orders.
pub proof fn law_owned_order_is_fieldwise(a: OwnedM, b: OwnedM)
    ensures
        order_of(a, b) == combined(
            seq![order_of(a.titles, b.titles), order_of(a.reply_to, b.reply_to), order_of(a.content, b.content)],
        ),
{
    let s = seq![order_of(a.titles, b.titles), order_of(a.reply_to, b.reply_to), order_of(a.content, b.content)];
    assert(s[0] == order_of(a.titles, b.titles) && s[1] == order_of(a.reply_to, b.reply_to) && s[2] == order_of(a.content, b.content));
}

/// A slice's order is the combination of its fields' orders.
pub proof fn law_slice_order_is_fieldwise(a: SliceM, b: SliceM)
    ensures
        order_of(a, b) == combined(seq![order_of(a.owned, b.owned), order_of(a.shared, b.shared)]),
{
    let s = seq![order_of(a.owned, b.owned), order_of(a.shared, b.shared)];
    assert(s[0] == order_of(a.owned, b.owned) && s[1] == order_of(a.shared, b.shared));
}

/// A view's order is the combination of its fields' orders.
pub proof fn law_view_order_is_fieldwise(a: DetailedM, b: DetailedM)
    ensures
        order_of(a, b) == combined(seq![order_of(a.threads, b.threads), order_of(a.messages, b.messages)]),
{
    let s = seq![order_of(a.threads, b.threads), order_of(a.messages, b.messages)];
    assert(s[0] == order_of(a.threads, b.threads) && s[1] == order_of(a.messages, b.messages));
}

} // verus!
