use threads::primitives::{GMap, GSet, GuardedPair, Join, Max, Redactable};

fn s(x: &str) -> String {
    x.to_string()
}

fn text(r: &Redactable) -> Option<String> {
    match r {
        Redactable::Data(t) => Some(t.clone()),
        Redactable::Redacted => None,
    }
}

#[test]
fn max_joins_to_the_maximum() {
    assert_eq!(Max(3).join(&Max(9)).0, 9);
    assert_eq!(Max(9).join(&Max(3)).0, 9);
    assert_eq!(Max(4).join(&Max(4)).0, 4);
}

#[test]
fn set_join_is_union_and_idempotent() {
    let mut a: GSet<String> = GSet::new();
    a.insert(s("x"));
    a.insert(s("y"));
    let b = GSet::singleton(s("z"));
    let ab = a.join(&b);
    let ba = b.join(&a);
    assert_eq!(ab.len(), 3);
    assert_eq!(ba.len(), 3);
    for x in ["x", "y", "z"] {
        assert!(ab.contains(&s(x)));
        assert!(ba.contains(&s(x)));
    }
    assert_eq!(a.join(&a).len(), 2);
}

#[test]
fn map_join_unions_keys_and_joins_shared_values() {
    let mut a: GMap<u64, Max> = GMap::new();
    a.join_entry(1, Max(5));
    a.join_entry(2, Max(1));
    let mut b: GMap<u64, Max> = GMap::new();
    b.join_entry(2, Max(8));
    b.join_entry(3, Max(2));
    let ab = a.join(&b);
    assert_eq!(ab.len(), 3);
    assert_eq!(ab.get(&1).unwrap().0, 5);
    assert_eq!(ab.get(&2).unwrap().0, 8);
    assert_eq!(ab.get(&3).unwrap().0, 2);
    let ba = b.join(&a);
    for k in [1u64, 2, 3] {
        assert_eq!(ab.get(&k).unwrap().0, ba.get(&k).unwrap().0);
    }
    let again = ab.join(&a);
    assert_eq!(again.len(), 3);
    assert_eq!(again.get(&2).unwrap().0, 8);
}

#[test]
fn map_join_is_associative_on_values() {
    let x = GMap::singleton(1u64, Max(4));
    let y = GMap::singleton(1u64, Max(9));
    let z = GMap::singleton(2u64, Max(1));
    let left = x.join(&y).join(&z);
    let right = x.join(&y.join(&z));
    assert_eq!(left.len(), right.len());
    assert_eq!(left.get(&1).unwrap().0, 9);
    assert_eq!(right.get(&1).unwrap().0, 9);
    assert_eq!(right.get(&2).unwrap().0, 1);
}

#[test]
fn guarded_pair_greater_guard_supersedes() {
    let low = GuardedPair { guard: Max(1), value: GSet::singleton(s("old")) };
    let high = GuardedPair { guard: Max(2), value: GSet::singleton(s("new")) };
    let j = low.join(&high);
    assert_eq!(j.guard.0, 2);
    assert_eq!(j.value.items, vec![s("new")]);
    let j2 = high.join(&low);
    assert_eq!(j2.value.items, vec![s("new")]);
    let same = GuardedPair { guard: Max(2), value: GSet::singleton(s("other")) };
    let both = high.join(&same);
    assert_eq!(both.value.len(), 2);
}

#[test]
fn tombstone_absorbs_live_values() {
    let dead = Redactable::Redacted;
    let live = Redactable::Data(s("hello"));
    assert!(dead.join(&live).is_redacted());
    assert!(live.join(&dead).is_redacted());
    let mut content: GMap<u64, Redactable> = GMap::new();
    content.join_entry(4, Redactable::Redacted);
    content.join_entry(4, Redactable::Data(s("again")));
    assert!(content.get(&4).unwrap().is_redacted());
}

#[test]
fn conflicting_live_values_resolve_to_the_tombstone() {
    let a = Redactable::Data(s("a"));
    let b = Redactable::Data(s("b"));
    assert!(a.join(&b).is_redacted());
    assert!(b.join(&a).is_redacted());
    assert_eq!(text(&a.join(&Redactable::Data(s("a")))), Some(s("a")));
}
