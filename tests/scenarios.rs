use threads::actor::Actor;
use threads::detailed::Detailed;
use threads::primitives::{Join, Redactable};
use threads::schema::{Root, Slice};

fn s(x: &str) -> String {
    x.to_string()
}

fn three_actor_slices() -> (Slice, Slice, Slice) {
    let mut alice = Slice::new();
    let mut bob = Slice::new();
    let mut carol = Slice::new();
    {
        let mut a = Actor::new(&mut alice, s("alice"), 0);
        let id = a.new_thread(s("Hello"), s("Hi all"), vec![s("intro")]);
        assert_eq!(id, (s("alice"), 0));
    }
    {
        let mut b = Actor::new(&mut bob, s("bob"), 0);
        let id = b.reply((s("alice"), 0), s("Welcome!"));
        assert_eq!(id, (s("bob"), 0));
    }
    {
        let mut c = Actor::new(&mut carol, s("carol"), 0);
        c.react((s("alice"), 0), s("like"), true);
    }
    (alice, bob, carol)
}

fn check_first_scenario(d: &Detailed) {
    let threads = d.threads.get(&s("alice")).unwrap();
    let thread = threads.get(&0).unwrap();
    assert_eq!(thread.titles.value.items, vec![s("Hello")]);
    let comment = d.messages.get(&s("alice")).unwrap().get(&0).unwrap();
    assert_eq!(comment.backrefs.items, vec![(s("bob"), 0)]);
    let like = comment.reactions.get(&s("like")).unwrap();
    assert_eq!(like.aggregate(), vec![0, 1]);
    match comment.content.get(&0).unwrap() {
        Redactable::Data(t) => assert_eq!(t, "Hi all"),
        Redactable::Redacted => panic!("opening message redacted"),
    }
    let tag = thread.tags.get(&s("intro")).unwrap();
    assert_eq!(tag.aggregate(), vec![0, 1, 0, 0]);
    let reply = d.messages.get(&s("bob")).unwrap().get(&0).unwrap();
    assert_eq!(reply.reply_to.items, vec![(s("alice"), 0)]);
}

#[test]
fn thread_reply_and_reaction_fold_in_any_order() {
    let (alice, bob, carol) = three_actor_slices();
    let mut root = Root::new();
    root.add_slice(s("alice"), alice.duplicate());
    root.add_slice(s("bob"), bob.duplicate());
    root.add_slice(s("carol"), carol.duplicate());
    check_first_scenario(&Detailed::new().join_root(&root));

    let mut reversed = Root::new();
    reversed.add_slice(s("carol"), carol.duplicate());
    reversed.add_slice(s("bob"), bob.duplicate());
    reversed.add_slice(s("alice"), alice.duplicate());
    check_first_scenario(&Detailed::new().join_root(&reversed));

    let mut first = Root::new();
    first.add_slice(s("bob"), bob);
    let mut rest = Root::new();
    rest.add_slice(s("carol"), carol);
    rest.add_slice(s("alice"), alice);
    let incremental = Detailed::new().join_root(&first).join_root(&rest);
    check_first_scenario(&incremental);
}

fn concurrent_edits() -> (Slice, u64, u64) {
    let mut base = Slice::new();
    {
        let mut a = Actor::new(&mut base, s("alice"), 0);
        a.new_thread(s("Hello"), s("Hi all"), vec![]);
    }
    let mut on_a = base.duplicate();
    let mut on_b = base.duplicate();
    let v1 = Actor::new(&mut on_a, s("alice"), 1).edit(0, s("first edit"));
    let v2 = Actor::new(&mut on_b, s("alice"), 2).edit(0, s("second edit"));
    (on_a.join(&on_b), v1, v2)
}

fn content_of(slice: &Slice, version: u64) -> Option<Option<String>> {
    let mut root = Root::new();
    root.add_slice(s("alice"), slice.duplicate());
    let d = Detailed::new().join_root(&root);
    let comment = d.messages.get(&s("alice")).unwrap().get(&0).unwrap();
    comment.content.get(&version).map(|c| match c {
        Redactable::Data(t) => Some(t.clone()),
        Redactable::Redacted => None,
    })
}

#[test]
fn concurrent_edits_from_two_devices_both_survive() {
    let (merged, v1, v2) = concurrent_edits();
    assert_ne!(v1, v2);
    assert_eq!(v1, (1 << 16) + 1);
    assert_eq!(v2, (1 << 16) + 2);
    assert_eq!(content_of(&merged, 0), Some(Some(s("Hi all"))));
    assert_eq!(content_of(&merged, v1), Some(Some(s("first edit"))));
    assert_eq!(content_of(&merged, v2), Some(Some(s("second edit"))));
}

#[test]
fn redacting_one_version_leaves_the_other_live() {
    let (mut merged, v1, v2) = concurrent_edits();
    Actor::new(&mut merged, s("alice"), 1).redact(0, v1);
    assert_eq!(content_of(&merged, v1), Some(None));
    assert_eq!(content_of(&merged, v2), Some(Some(s("second edit"))));
}

#[test]
fn default_values_are_empty() {
    let d = Detailed::default();
    assert!(d.threads.entries.is_empty());
    assert!(d.messages.entries.is_empty());
    let r = Root::default();
    assert!(Detailed::new().join_root(&r).threads.entries.is_empty());
    let sl = Slice::default();
    assert!(sl.owned.entries.is_empty() && sl.shared.entries.is_empty());
}
