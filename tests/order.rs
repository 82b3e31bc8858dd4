use std::cmp::Ordering;
use threads::actor::Actor;
use threads::detailed::{Detailed, Vote};
use threads::order::{combine_orders, compare};
use threads::primitives::{GMap, GSet, Join, Max};
use threads::schema::{Root, Slice};

fn s(x: &str) -> String {
    x.to_string()
}

#[test]
fn combining_field_orders() {
    assert_eq!(combine_orders(&vec![]), Some(Ordering::Equal));
    assert_eq!(combine_orders(&vec![Some(Ordering::Equal), Some(Ordering::Equal)]), Some(Ordering::Equal));
    assert_eq!(combine_orders(&vec![Some(Ordering::Equal), Some(Ordering::Less)]), Some(Ordering::Less));
    assert_eq!(combine_orders(&vec![Some(Ordering::Greater), Some(Ordering::Equal)]), Some(Ordering::Greater));
    assert_eq!(combine_orders(&vec![Some(Ordering::Less), Some(Ordering::Greater)]), None);
    assert_eq!(combine_orders(&vec![Some(Ordering::Equal), None]), None);
}

#[test]
fn compare_follows_the_join() {
    let a = GSet::singleton(s("x"));
    let mut b = GSet::singleton(s("x"));
    b.insert(s("y"));
    let c = GSet::singleton(s("z"));
    assert_eq!(compare(&a, &b), Some(Ordering::Less));
    assert_eq!(compare(&b, &a), Some(Ordering::Greater));
    assert_eq!(compare(&a, &a.duplicate()), Some(Ordering::Equal));
    assert_eq!(compare(&a, &c), None);
    assert!(a.leq(&a.join(&c)));
    assert!(c.leq(&a.join(&c)));
}

#[test]
fn map_order_is_pointwise() {
    let low = GMap::singleton(1u64, Max(2));
    let high = GMap::singleton(1u64, Max(5));
    let other = GMap::singleton(2u64, Max(1));
    assert_eq!(compare(&low, &high), Some(Ordering::Less));
    assert_eq!(compare(&high, &other), None);
    assert_eq!(compare(&low, &low.join(&other)), Some(Ordering::Less));
}

#[test]
fn editing_moves_a_slice_up() {
    let mut slice = Slice::new();
    Actor::new(&mut slice, s("alice"), 0).new_thread(s("T"), s("B"), vec![]);
    let before = slice.duplicate();
    Actor::new(&mut slice, s("alice"), 0).edit(0, s("C"));
    assert_eq!(compare(&before, &slice), Some(Ordering::Less));
    assert_eq!(compare(&slice.join(&before), &slice), Some(Ordering::Equal));
}

#[test]
fn folding_is_idempotent_on_the_view() {
    let mut slice = Slice::new();
    let mut a = Actor::new(&mut slice, s("alice"), 0);
    let id = a.new_thread(s("T"), s("B"), vec![s("t")]);
    a.reply(id, s("self reply"));
    drop(a);
    let mut root = Root::new();
    root.add_slice(s("alice"), slice);
    let once = Detailed::new().join_root(&root);
    let twice = once.join_root(&root);
    assert_eq!(compare(&once, &twice), Some(Ordering::Equal));
    let doubled = once.join(&once);
    assert_eq!(compare(&once, &doubled), Some(Ordering::Equal));
    let comment = once.messages.get(&s("alice")).unwrap().get(&0).unwrap();
    assert_eq!(comment.backrefs.items, vec![(s("alice"), 1 << 16)]);
}

#[test]
fn vote_histogram_and_net_score() {
    let mut votes: GMap<String, Max> = GMap::new();
    votes.join_entry(s("a"), Max(1));
    votes.join_entry(s("b"), Max(5));
    votes.join_entry(s("c"), Max(2));
    votes.join_entry(s("d"), Max(7));
    let tag: Vote<4> = Vote { votes };
    assert_eq!(tag.aggregate(), vec![0, 2, 1, 1]);
    assert_eq!(tag.net_score(), 1);
    let two: Vote<2> = Vote { votes: tag.votes.duplicate() };
    assert_eq!(two.aggregate(), vec![1, 3]);
}
