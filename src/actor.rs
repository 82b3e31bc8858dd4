//! The mutation interface: one actor, on one device, editing their own slice.
use vstd::prelude::*;
use crate::lattice::{Cell, Guarded, Lattice};
use crate::primitives::{GMap, GSet, GuardedPair, Join, Key, Max, Redactable, lemma_entries_dom, text_clone};
use crate::laws::law_adjust_tags_monotone;
use crate::schema::{ActorID, MessageID, MessageKey, Owned, OwnedM, Reaction, Shared, SharedM, Slice, Tag};

verus! {

/// The number of distinct devices an actor may use.
pub const DEVICES: u64 = 65536;

/// The local number of the item that an actor with `count` owned items
/// allocates on `device`: the count in the high bits, the device below.
pub open spec fn local_id(count: nat, device: u64) -> int {
    count * 65536 + device
}

/// Every owned key that `device` allocated has a count below `count`.
pub open spec fn device_ids_below(keys: Set<u64>, device: u64, count: nat) -> bool {
    forall|k: u64| #[trigger] keys.contains(k) && k % 65536 == device ==> k / 65536 < count
}

/// Sequential allocations on one device never repeat a number: the next
/// number is new, and the allocation keeps the device's numbers below the
/// new count.
pub proof fn lemma_local_id_fresh(keys: Set<u64>, device: u64, count: nat)
    requires
        device < DEVICES,
        device_ids_below(keys, device, count),
        local_id(count, device) <= u64::MAX,
    ensures
        !keys.contains(local_id(count, device) as u64),
        device_ids_below(keys.insert(local_id(count, device) as u64), device, count + 1),
{
    let k = local_id(count, device) as u64;
    assert(k % 65536 == device && k / 65536 == count) by (nonlinear_arith)
        requires
            k == count * 65536 + device,
            device < 65536,
    ;
}

/// Two devices of one actor never allocate the same number, whatever their
/// counts.
pub proof fn lemma_local_id_devices_disjoint(c1: nat, d1: u64, c2: nat, d2: u64)
    requires
        d1 < DEVICES,
        d2 < DEVICES,
        d1 != d2,
    ensures
        local_id(c1, d1) != local_id(c2, d2),
{
    assert(c1 * 65536 + d1 != c2 * 65536 + d2) by (nonlinear_arith)
        requires
            d1 < 65536,
            d2 < 65536,
            d1 != d2,
    ;
}

/// The model of an owned item that holds only `content`.
pub open spec fn content_only(content: Map<u64, Cell>) -> OwnedM {
    OwnedM {
        titles: Guarded { guard: 0, value: Set::empty() },
        reply_to: Set::empty(),
        content,
    }
}

/// The model of a new thread's opening message.
pub open spec fn thread_opening(title: Seq<char>, body: Seq<char>) -> OwnedM {
    OwnedM {
        titles: Guarded { guard: 0, value: Set::empty().insert(title) },
        reply_to: Set::empty(),
        content: Map::empty().insert(0, Cell::Live(body)),
    }
}

/// The model of a reply to `parent`.
pub open spec fn reply_message(parent: MessageKey, body: Seq<char>) -> OwnedM {
    OwnedM {
        titles: Guarded { guard: 0, value: Set::empty() },
        reply_to: Set::empty().insert(parent),
        content: Map::empty().insert(0, Cell::Live(body)),
    }
}

/// The author's own tags on a new thread: each one a positive vote.
pub open spec fn positive_tags(tags: Seq<String>) -> Map<Seq<char>, u64> {
    Map::new(
        |t: Seq<char>| exists|i: int| 0 <= i < tags.len() && #[trigger] tags[i]@ == t,
        |t: Seq<char>| 1u64,
    )
}

/// The next version of a content map: one above the newest version's high
/// bits, on this device.
pub open spec fn next_version(versions: Set<u64>, device: u64) -> int {
    if versions.is_empty() {
        device as int
    } else {
        (newest(versions) / 65536 + 1) * 65536 + device
    }
}

pub open spec fn is_newest(versions: Set<u64>, m: u64) -> bool {
    versions.contains(m) && forall|x: u64| #[trigger] versions.contains(x) ==> x <= m
}

/// The greatest version in a non-empty set.
pub open spec fn newest(versions: Set<u64>) -> u64 {
    choose|m: u64| is_newest(versions, m)
}

/// The tag counters after adding each of `add` in turn.
pub open spec fn tags_added(m: Map<Seq<char>, u64>, add: Seq<String>) -> Map<Seq<char>, u64>
    decreases add.len(),
{
    if add.len() == 0 {
        m
    } else {
        let p = tags_added(m, add.drop_last());
        let t = add.last()@;
        p.insert(t, tag_add_step(counter_of(p, t)) as u64)
    }
}

/// The tag counters after removing each of `remove` in turn.
pub open spec fn tags_removed(m: Map<Seq<char>, u64>, remove: Seq<String>) -> Map<Seq<char>, u64>
    decreases remove.len(),
{
    if remove.len() == 0 {
        m
    } else {
        let p = tags_removed(m, remove.drop_last());
        let t = remove.last()@;
        p.insert(t, tag_remove_step(counter_of(p, t)) as u64)
    }
}

/// Every counter of `m` leaves room for `steps` more steps of at most 3.
pub open spec fn room_for(m: Map<Seq<char>, u64>, steps: nat) -> bool {
    &&& 3 * steps <= u64::MAX
    &&& forall|t: Seq<char>| #[trigger] m.contains_key(t) ==> m[t] + 3 * steps <= u64::MAX
}

/// The counter of a reaction after a call that wants it set or cleared.
pub open spec fn react_step(counter: u64, want: bool) -> int {
    if (counter % 2 == 1) != want {
        counter + 1
    } else {
        counter as int
    }
}

/// A tag's counter after adding the tag: 0 neutral, 1 positive, 2 negative,
/// 3 reserved; it only ever grows.
pub open spec fn tag_add_step(counter: u64) -> int {
    let s = counter % 4;
    if s == 0 {
        counter + 1
    } else if s == 1 {
        counter as int
    } else if s == 2 {
        counter + 3
    } else {
        counter + 2
    }
}

/// A tag's counter after removing the tag.
pub open spec fn tag_remove_step(counter: u64) -> int {
    let s = counter % 4;
    if s == 0 {
        counter + 2
    } else if s == 1 {
        counter + 1
    } else if s == 2 {
        counter as int
    } else {
        counter + 3
    }
}

pub open spec fn counter_of(m: Map<Seq<char>, u64>, k: Seq<char>) -> u64 {
    if m.contains_key(k) { m[k] } else { 0 }
}

pub open spec fn shared_of(m: Map<MessageKey, SharedM>, k: MessageKey) -> SharedM {
    if m.contains_key(k) { m[k] } else { SharedM { tags: Map::empty(), reactions: Map::empty() } }
}

pub open spec fn content_of(m: Map<u64, OwnedM>, id: u64) -> Map<u64, Cell> {
    if m.contains_key(id) { m[id].content } else { Map::empty() }
}

/// The next version after those in `content`, on `device`.
fn next_version_of(content: &GMap<u64, Redactable>, device: u64) -> (r: u64)
    requires
        device < DEVICES,
        next_version(content.map_model().dom(), device) <= u64::MAX,
    ensures
        r == next_version(content.map_model().dom(), device),
        !content.map_model().contains_key(r),
{
    let ghost dom = content.map_model().dom();
    let mut found = false;
    let mut m: u64 = 0;
    let mut i: usize = 0;
    while i < content.entries.len()
        invariant
            i <= content.entries.len(),
            found == (i > 0),
            found ==> exists|j: int| 0 <= j < i && #[trigger] content.entries@[j].0 == m,
            forall|j: int| 0 <= j < i ==> #[trigger] content.entries@[j].0 <= m,
        decreases content.entries.len() - i,
    {
        let k = content.entries[i].0;
        if !found || k > m {
            m = k;
        }
        found = true;
        i = i + 1;
    }
    proof {
        assert forall|x: u64| #[trigger] dom.contains(x) <==> exists|j: int| 0 <= j < content.entries.len() && #[trigger] content.entries@[j].0.key_model() == x by {
            lemma_entries_dom(content.entries@, x);
        }
    }
    if !found {
        proof {
            assert(dom =~= Set::<u64>::empty());
        }
        device
    } else {
        proof {
            let j0 = choose|j: int| 0 <= j < i && #[trigger] content.entries@[j].0 == m;
            assert(content.entries@[j0].0.key_model() == m);
            assert(dom.contains(m));
            assert forall|x: u64| #[trigger] dom.contains(x) implies x <= m by {
                let j = choose|j: int| 0 <= j < content.entries.len() && #[trigger] content.entries@[j].0.key_model() == x;
                assert(content.entries@[j].0 <= m);
            }
            assert(is_newest(dom, m));
            let c = newest(dom);
            assert(c == m);
        }
        let r = (m / 65536 + 1) * 65536 + device;
        assert(r > m) by (nonlinear_arith)
            requires
                r == (m / 65536 + 1) * 65536 + device,
        ;
        r
    }
}

/// A session of one actor on one device, with sole access to their slice.
pub struct Actor<'a> {
    pub id: ActorID,
    pub device_id: u64,
    pub slice: &'a mut Slice,
}

impl<'a> Actor<'a> {
    pub open spec fn wf(&self) -> bool {
        &&& self.slice.wf()
        &&& self.device_id < DEVICES
        &&& device_ids_below(
            self.slice.model().owned.dom(),
            self.device_id,
            self.slice.model().owned.dom().len(),
        )
    }

    pub fn new(slice: &'a mut Slice, id: ActorID, device_id: u64) -> (r: Actor<'a>)
        requires
            device_id < DEVICES,
        ensures
            r.id == id,
            r.device_id == device_id,
            r.slice.model() == old(slice).model(),
            r.slice.wf() == old(slice).wf(),
    {
        Actor { id, device_id, slice }
    }

    /// The owned items' model.
    pub open spec fn owned_m(&self) -> Map<u64, OwnedM> {
        self.slice.model().owned
    }

    pub open spec fn shared_m(&self) -> Map<MessageKey, SharedM> {
        self.slice.model().shared
    }

    pub open spec fn next_local(&self) -> int {
        local_id(self.owned_m().dom().len(), self.device_id)
    }

    /// Allocates the number of a new owned item and writes `item` there.
    fn add_owned(&mut self, item: Owned) -> (r: u64)
        requires
            old(self).wf(),
            old(self).next_local() <= u64::MAX,
        ensures
            final(self).wf(),
            final(self).id == old(self).id,
            final(self).device_id == old(self).device_id,
            r == old(self).next_local(),
            !old(self).owned_m().contains_key(r),
            final(self).owned_m() == old(self).owned_m().insert(r, item.model()),
            final(self).shared_m() == old(self).shared_m(),
    {
        let count = self.slice.owned.len();
        let id: u64 = count as u64 * 65536 + self.device_id;
        let ghost m = item.model();
        proof {
            lemma_local_id_fresh(self.owned_m().dom(), self.device_id, self.owned_m().dom().len());
        }
        self.slice.owned.join_entry(id, item);
        proof {
            let o = old(self).owned_m();
            assert(self.owned_m() =~= o.insert(id, m));
            assert(self.owned_m().dom() =~= o.dom().insert(id));
        }
        id
    }

    /// Starts a thread: its opening message, titled, with the author's own
    /// tags as positive votes.
    pub fn new_thread(&mut self, title: String, message: String, tags: Vec<Tag>) -> (r: MessageID)
        requires
            old(self).wf(),
            old(self).next_local() <= u64::MAX,
        ensures
            final(self).wf(),
            final(self).id == old(self).id,
            final(self).device_id == old(self).device_id,
            r.0@ == old(self).id@,
            r.1 == old(self).next_local(),
            !old(self).owned_m().contains_key(r.1),
            final(self).owned_m() == old(self).owned_m().insert(r.1, thread_opening(title@, message@)),
            final(self).shared_m() == old(self).shared_m().join(
                Map::<MessageKey, SharedM>::empty().insert(
                    (r.0@, r.1),
                    SharedM { tags: positive_tags(tags@), reactions: Map::empty() },
                ),
            ),
    {
        let ghost t = title@;
        let ghost b = message@;
        let item = Owned {
            titles: GuardedPair { guard: Max(0), value: GSet::singleton(title) },
            reply_to: GSet::new(),
            content: GMap::singleton(0, Redactable::Data(message)),
        };
        assert(item.model() == thread_opening(t, b));
        let id = self.add_owned(item);
        let mut votes: GMap<Tag, Max> = GMap::new();
        let mut i: usize = 0;
        while i < tags.len()
            invariant
                i <= tags.len(),
                votes.wf(),
                votes.map_model() == positive_tags(tags@.subrange(0, i as int)),
            decreases tags.len() - i,
        {
            let ghost pre = votes.map_model();
            votes.join_entry(text_clone(&tags[i]), Max(1));
            i = i + 1;
            proof {
                let sub = tags@.subrange(0, i as int);
                assert forall|x: Seq<char>| #[trigger] positive_tags(sub).contains_key(x) implies votes.map_model().contains_key(x) by {
                    let j = choose|j: int| 0 <= j < sub.len() && #[trigger] sub[j]@ == x;
                    if j < i - 1 {
                        assert(tags@.subrange(0, i - 1)[j] == sub[j]);
                    }
                }
                assert forall|x: Seq<char>| #[trigger] votes.map_model().contains_key(x) implies positive_tags(sub).contains_key(x) by {
                    if x != tags@[i - 1]@ {
                        let prev = tags@.subrange(0, i - 1);
                        assert(positive_tags(prev).contains_key(x));
                        let j = choose|j: int| 0 <= j < prev.len() && #[trigger] prev[j]@ == x;
                        assert(sub[j] == prev[j]);
                    } else {
                        assert(sub[i - 1] == tags@[i - 1]);
                    }
                }
                assert(votes.map_model() =~= positive_tags(sub));
            }
        }
        assert(tags@.subrange(0, tags.len() as int) =~= tags@);
        let shared = Shared { tags: votes, reactions: GMap::new() };
        let key = (text_clone(&self.id), id);
        self.slice.shared.join_entry(key, shared);
        (text_clone(&self.id), id)
    }

    /// Replies to `parent` with a new message.
    pub fn reply(&mut self, parent: MessageID, message: String) -> (r: MessageID)
        requires
            old(self).wf(),
            old(self).next_local() <= u64::MAX,
        ensures
            final(self).wf(),
            final(self).id == old(self).id,
            final(self).device_id == old(self).device_id,
            r.0@ == old(self).id@,
            r.1 == old(self).next_local(),
            !old(self).owned_m().contains_key(r.1),
            final(self).owned_m() == old(self).owned_m().insert(
                r.1,
                reply_message(parent.key_model(), message@),
            ),
            final(self).shared_m() == old(self).shared_m(),
    {
        let ghost p = parent.key_model();
        let ghost b = message@;
        let item = Owned {
            titles: GuardedPair { guard: Max(0), value: GSet::new() },
            reply_to: GSet::singleton(parent),
            content: GMap::singleton(0, Redactable::Data(message)),
        };
        assert(item.model() == reply_message(p, b));
        let id = self.add_owned(item);
        (text_clone(&self.id), id)
    }

    /// Writes a new version of one of the actor's messages; earlier versions
    /// stay.
    pub fn edit(&mut self, id: u64, message: String) -> (r: u64)
        requires
            old(self).device_id < DEVICES,
            next_version(content_of(old(self).owned_m(), id).dom(), old(self).device_id)
                <= u64::MAX,
        ensures
            final(self).id == old(self).id,
            final(self).device_id == old(self).device_id,
            r == next_version(content_of(old(self).owned_m(), id).dom(), old(self).device_id),
            !content_of(old(self).owned_m(), id).contains_key(r),
            final(self).owned_m() == old(self).owned_m().join(
                Map::<u64, OwnedM>::empty().insert(
                    id,
                    content_only(Map::empty().insert(r, Cell::Live(message@))),
                ),
            ),
            final(self).shared_m() == old(self).shared_m(),
            old(self).wf() && old(self).owned_m().contains_key(id) ==> final(self).wf(),
    {
        let version = match self.slice.owned.get(&id) {
            Some(o) => next_version_of(&o.content, self.device_id),
            None => {
                proof {
                    assert(content_of(self.owned_m(), id).dom() =~= Set::<u64>::empty());
                }
                self.device_id
            },
        };
        let ghost b = message@;
        let item = Owned {
            titles: GuardedPair { guard: Max(0), value: GSet::new() },
            reply_to: GSet::new(),
            content: GMap::singleton(version, Redactable::Data(message)),
        };
        assert(item.model() == content_only(Map::empty().insert(version, Cell::Live(b))));
        self.slice.owned.join_entry(id, item);
        proof {
            if old(self).owned_m().contains_key(id) {
                assert(self.owned_m().dom() =~= old(self).owned_m().dom());
            }
        }
        version
    }

    /// Marks one version of one of the actor's messages as redacted; a
    /// version that was never written is redacted all the same.
    pub fn redact(&mut self, id: u64, version: u64)
        ensures
            final(self).id == old(self).id,
            final(self).device_id == old(self).device_id,
            final(self).owned_m() == old(self).owned_m().join(
                Map::<u64, OwnedM>::empty().insert(
                    id,
                    content_only(Map::empty().insert(version, Cell::Tombstone)),
                ),
            ),
            content_of(final(self).owned_m(), id)[version] is Tombstone,
            final(self).shared_m() == old(self).shared_m(),
            old(self).wf() && old(self).owned_m().contains_key(id) ==> final(self).wf(),
    {
        let item = Owned {
            titles: GuardedPair { guard: Max(0), value: GSet::new() },
            reply_to: GSet::new(),
            content: GMap::singleton(version, Redactable::Redacted),
        };
        self.slice.owned.join_entry(id, item);
        proof {
            if old(self).owned_m().contains_key(id) {
                assert(self.owned_m().dom() =~= old(self).owned_m().dom());
            }
        }
    }

    /// Sets (`want`) or clears the actor's reaction to a message. The
    /// counter's parity is the opinion; it grows by one only when the
    /// opinion changes.
    pub fn react(&mut self, id: MessageID, reaction: Reaction, want: bool)
        requires
            counter_of(shared_of(old(self).shared_m(), id.key_model()).reactions, reaction@) < u64::MAX,
        ensures
            final(self).id == old(self).id,
            final(self).device_id == old(self).device_id,
            final(self).owned_m() == old(self).owned_m(),
            final(self).slice.wf() == old(self).slice.wf(),
            old(self).wf() ==> final(self).wf(),
            final(self).shared_m() == old(self).shared_m().join(
                Map::<MessageKey, SharedM>::empty().insert(
                    id.key_model(),
                    SharedM {
                        tags: Map::empty(),
                        reactions: Map::empty().insert(
                            reaction@,
                            react_step(
                                counter_of(shared_of(old(self).shared_m(), id.key_model()).reactions, reaction@),
                                want,
                            ) as u64,
                        ),
                    },
                ),
            ),
            counter_of(shared_of(final(self).shared_m(), id.key_model()).reactions, reaction@)
                == react_step(
                counter_of(shared_of(old(self).shared_m(), id.key_model()).reactions, reaction@),
                want,
            ),
    {
        let stored: u64 = match self.slice.shared.get(&id) {
            Some(sh) => match sh.reactions.get(&reaction) {
                Some(c) => c.0,
                None => 0,
            },
            None => 0,
        };
        let next: u64 = if (stored % 2 == 1) != want {
            stored + 1
        } else {
            stored
        };
        let ghost rk = reaction@;
        let update = Shared { tags: GMap::new(), reactions: GMap::singleton(reaction, Max(next)) };
        assert(update.model().reactions == Map::<Seq<char>, u64>::empty().insert(rk, next));
        self.slice.shared.join_entry(id, update);
    }

    /// Adds and then removes tags on a message, each through the four-state
    /// counter: a counter only ever grows.
    pub fn adjust_tags(&mut self, id: MessageID, add: Vec<Tag>, remove: Vec<Tag>)
        requires
            room_for(shared_of(old(self).shared_m(), id.key_model()).tags, (add.len() + remove.len()) as nat),
        ensures
            final(self).id == old(self).id,
            final(self).device_id == old(self).device_id,
            final(self).owned_m() == old(self).owned_m(),
            final(self).slice.wf() == old(self).slice.wf(),
            old(self).wf() ==> final(self).wf(),
            final(self).shared_m() == old(self).shared_m().join(
                Map::<MessageKey, SharedM>::empty().insert(
                    id.key_model(),
                    SharedM {
                        tags: tags_removed(
                            tags_added(shared_of(old(self).shared_m(), id.key_model()).tags, add@),
                            remove@,
                        ),
                        reactions: shared_of(old(self).shared_m(), id.key_model()).reactions,
                    },
                ),
            ),
            forall|t: Seq<char>|
                #[trigger] counter_of(shared_of(final(self).shared_m(), id.key_model()).tags, t)
                    >= counter_of(shared_of(old(self).shared_m(), id.key_model()).tags, t),
    {
        let ghost k = id.key_model();
        let mut sh = match self.slice.shared.get(&id) {
            Some(s) => s.duplicate(),
            None => Shared::new(),
        };
        let ghost start = sh.tags.map_model();
        assert(start == shared_of(self.shared_m(), k).tags);
        let mut i: usize = 0;
        while i < add.len()
            invariant
                i <= add.len(),
                sh.model().reactions == shared_of(old(self).shared_m(), k).reactions,
                sh.tags.map_model() == tags_added(start, add@.subrange(0, i as int)),
                room_for(sh.tags.map_model(), (add.len() - i + remove.len()) as nat),
            decreases add.len() - i,
        {
            let ghost p = sh.tags.map_model();
            let c: u64 = match sh.tags.get(&add[i]) {
                Some(v) => v.0,
                None => 0,
            };
            let n: u64 = match c % 4 {
                0 => c + 1,
                1 => c,
                2 => c + 3,
                _ => c + 2,
            };
            sh.tags.join_entry(text_clone(&add[i]), Max(n));
            proof {
                let t = add@[i as int]@;
                assert(add@.subrange(0, i as int + 1).drop_last() =~= add@.subrange(0, i as int));
                assert(sh.tags.map_model() =~= p.insert(t, n));
            }
            i = i + 1;
        }
        assert(add@.subrange(0, add.len() as int) =~= add@);
        let ghost mid = sh.tags.map_model();
        let mut j: usize = 0;
        while j < remove.len()
            invariant
                j <= remove.len(),
                sh.model().reactions == shared_of(old(self).shared_m(), k).reactions,
                sh.tags.map_model() == tags_removed(mid, remove@.subrange(0, j as int)),
                room_for(sh.tags.map_model(), (remove.len() - j) as nat),
            decreases remove.len() - j,
        {
            let ghost p = sh.tags.map_model();
            let c: u64 = match sh.tags.get(&remove[j]) {
                Some(v) => v.0,
                None => 0,
            };
            let n: u64 = match c % 4 {
                0 => c + 2,
                1 => c + 1,
                2 => c,
                _ => c + 3,
            };
            sh.tags.join_entry(text_clone(&remove[j]), Max(n));
            proof {
                let t = remove@[j as int]@;
                assert(remove@.subrange(0, j as int + 1).drop_last() =~= remove@.subrange(0, j as int));
                assert(sh.tags.map_model() =~= p.insert(t, n));
            }
            j = j + 1;
        }
        assert(remove@.subrange(0, remove.len() as int) =~= remove@);
        self.slice.shared.join_entry(id, sh);
        proof {
            assert forall|t: Seq<char>|
                #[trigger] counter_of(shared_of(self.shared_m(), k).tags, t)
                    >= counter_of(shared_of(old(self).shared_m(), k).tags, t) by {
                law_adjust_tags_monotone(old(self).shared_m(), k, add@, remove@, t);
            }
        }
    }
}

} // verus!
