use threads::actor::Actor;
use threads::primitives::{GMap, Join, Max, Redactable};
use threads::schema::Slice;

fn s(x: &str) -> String {
    x.to_string()
}

fn tag_counter(slice: &Slice, target: &(String, u64), tag: &str) -> u64 {
    slice.shared.get(target).unwrap().tags.get(&s(tag)).map(|m| m.0).unwrap_or(0)
}

fn reaction_counter(slice: &Slice, target: &(String, u64), r: &str) -> u64 {
    slice.shared.get(target).unwrap().reactions.get(&s(r)).map(|m| m.0).unwrap_or(0)
}

#[test]
fn local_ids_are_sequential_and_device_partitioned() {
    let mut slice = Slice::new();
    let mut a = Actor::new(&mut slice, s("alice"), 3);
    let first = a.new_thread(s("t"), s("b"), vec![]);
    let second = a.reply(first.clone(), s("r"));
    let third = a.new_thread(s("u"), s("c"), vec![]);
    assert_eq!(first.1, 3);
    assert_eq!(second.1, (1 << 16) + 3);
    assert_eq!(third.1, (2 << 16) + 3);

    let mut other = Slice::new();
    let mut b = Actor::new(&mut other, s("alice"), 4);
    let on_four = b.new_thread(s("t"), s("b"), vec![]);
    assert_ne!(on_four.1, first.1);
    assert_eq!(on_four.1 & 0xffff, 4);
}

#[test]
fn edit_of_a_message_without_versions_starts_at_the_device() {
    let mut slice = Slice::new();
    let mut a = Actor::new(&mut slice, s("alice"), 7);
    assert_eq!(a.edit(42, s("x")), 7);
    assert_eq!(a.edit(42, s("y")), (1 << 16) + 7);
}

#[test]
fn react_toggles_by_parity_and_never_decreases() {
    let mut slice = Slice::new();
    let target = (s("bob"), 0);
    let mut a = Actor::new(&mut slice, s("alice"), 0);
    a.react(target.clone(), s("like"), true);
    a.react(target.clone(), s("like"), true);
    drop(a);
    assert_eq!(reaction_counter(&slice, &target, "like"), 1);
    let mut a = Actor::new(&mut slice, s("alice"), 0);
    a.react(target.clone(), s("like"), false);
    a.react(target.clone(), s("like"), false);
    drop(a);
    assert_eq!(reaction_counter(&slice, &target, "like"), 2);
    let mut a = Actor::new(&mut slice, s("alice"), 0);
    a.react(target.clone(), s("like"), true);
    drop(a);
    assert_eq!(reaction_counter(&slice, &target, "like"), 3);
}

#[test]
fn adjust_tags_follows_the_four_state_table() {
    let mut slice = Slice::new();
    let t = (s("bob"), 5);
    let mut a = Actor::new(&mut slice, s("alice"), 0);
    // neutral, add: positive
    a.adjust_tags(t.clone(), vec![s("x")], vec![]);
    drop(a);
    assert_eq!(tag_counter(&slice, &t, "x"), 1);
    let mut a = Actor::new(&mut slice, s("alice"), 0);
    // positive, add: unchanged
    a.adjust_tags(t.clone(), vec![s("x")], vec![]);
    drop(a);
    assert_eq!(tag_counter(&slice, &t, "x"), 1);
    let mut a = Actor::new(&mut slice, s("alice"), 0);
    // positive, remove: negative
    a.adjust_tags(t.clone(), vec![], vec![s("x")]);
    drop(a);
    assert_eq!(tag_counter(&slice, &t, "x"), 2);
    let mut a = Actor::new(&mut slice, s("alice"), 0);
    // negative, remove: unchanged; negative, add: positive by three
    a.adjust_tags(t.clone(), vec![], vec![s("x")]);
    a.adjust_tags(t.clone(), vec![s("x")], vec![]);
    // neutral, remove: negative by two
    a.adjust_tags(t.clone(), vec![], vec![s("y")]);
    drop(a);
    assert_eq!(tag_counter(&slice, &t, "x"), 5);
    assert_eq!(tag_counter(&slice, &t, "y"), 2);
}

#[test]
fn adjust_tags_from_the_reserved_state() {
    let mut slice = Slice::new();
    let t = (s("bob"), 5);
    let mut seeded = slice.shared.duplicate();
    let mut tags: GMap<String, Max> = GMap::new();
    tags.join_entry(s("x"), Max(3));
    tags.join_entry(s("y"), Max(7));
    seeded.join_entry(
        t.clone(),
        threads::schema::Shared { tags, reactions: GMap::new() },
    );
    slice.shared = seeded;
    let mut a = Actor::new(&mut slice, s("alice"), 0);
    a.adjust_tags(t.clone(), vec![s("x")], vec![s("y")]);
    drop(a);
    assert_eq!(tag_counter(&slice, &t, "x"), 5);
    assert_eq!(tag_counter(&slice, &t, "y"), 10);
}

#[test]
fn new_thread_records_author_tags_as_positive_votes() {
    let mut slice = Slice::new();
    let mut a = Actor::new(&mut slice, s("alice"), 0);
    let id = a.new_thread(s("T"), s("B"), vec![s("a"), s("b"), s("a")]);
    drop(a);
    assert_eq!(tag_counter(&slice, &id, "a"), 1);
    assert_eq!(tag_counter(&slice, &id, "b"), 1);
    assert_eq!(slice.shared.get(&id).unwrap().tags.entries.len(), 2);
}

#[test]
fn redact_of_an_unwritten_version_creates_a_tombstone() {
    let mut slice = Slice::new();
    let mut a = Actor::new(&mut slice, s("alice"), 0);
    a.new_thread(s("T"), s("B"), vec![]);
    a.redact(0, 99);
    drop(a);
    let owned = slice.owned.get(&0).unwrap();
    assert!(owned.content.get(&99).unwrap().is_redacted());
    assert!(!owned.content.get(&0).unwrap().is_redacted());
    let _ = Redactable::Redacted.duplicate();
}
