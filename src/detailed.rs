//! The materialized view: all actors' slices folded into threads and
//! comments, with back-references and attributed votes.
use vstd::prelude::*;
use vstd::set::fold::{is_fun_commutative, lemma_fold_empty, lemma_fold_insert};
use crate::lattice::{Cell, Guarded, Lattice};
use crate::primitives::{GMap, GSet, GuardedPair, Join, Key, Max, Redactable, lemma_entries_dom, text_clone};
use crate::schema::{ActorID, MessageID, MessageKey, Owned, OwnedM, Root, Shared, SharedM, Slice, SliceM};

verus! {

/// The model of a thread's derived state.
pub struct ThreadM {
    pub titles: Guarded<Set<Seq<char>>>,
    pub tags: Map<Seq<char>, Map<Seq<char>, u64>>,
}

impl Lattice for ThreadM {
    open spec fn join(self, o: ThreadM) -> ThreadM {
        ThreadM { titles: self.titles.join(o.titles), tags: self.tags.join(o.tags) }
    }

    open spec fn le(self, o: ThreadM) -> bool {
        self.titles.le(o.titles) && self.tags.le(o.tags)
    }

    proof fn lemma_join_idempotent(a: ThreadM) {
        Guarded::<Set<Seq<char>>>::lemma_join_idempotent(a.titles);
        Map::<Seq<char>, Map<Seq<char>, u64>>::lemma_join_idempotent(a.tags);
    }

    proof fn lemma_join_commutative(a: ThreadM, b: ThreadM) {
        Guarded::<Set<Seq<char>>>::lemma_join_commutative(a.titles, b.titles);
        Map::<Seq<char>, Map<Seq<char>, u64>>::lemma_join_commutative(a.tags, b.tags);
    }

    proof fn lemma_join_associative(a: ThreadM, b: ThreadM, c: ThreadM) {
        Guarded::<Set<Seq<char>>>::lemma_join_associative(a.titles, b.titles, c.titles);
        Map::<Seq<char>, Map<Seq<char>, u64>>::lemma_join_associative(a.tags, b.tags, c.tags);
    }

    proof fn lemma_le_iff_join(a: ThreadM, b: ThreadM) {
        Guarded::<Set<Seq<char>>>::lemma_le_iff_join(a.titles, b.titles);
        Map::<Seq<char>, Map<Seq<char>, u64>>::lemma_le_iff_join(a.tags, b.tags);
    }
}

/// The model of a comment's derived state.
pub struct CommentM {
    pub reply_to: Set<MessageKey>,
    pub content: Map<u64, Cell>,
    pub reactions: Map<Seq<char>, Map<Seq<char>, u64>>,
    pub backrefs: Set<MessageKey>,
}

impl Lattice for CommentM {
    open spec fn join(self, o: CommentM) -> CommentM {
        CommentM {
            reply_to: self.reply_to.join(o.reply_to),
            content: self.content.join(o.content),
            reactions: self.reactions.join(o.reactions),
            backrefs: self.backrefs.join(o.backrefs),
        }
    }

    open spec fn le(self, o: CommentM) -> bool {
        self.reply_to.le(o.reply_to) && self.content.le(o.content) && self.reactions.le(o.reactions)
            && self.backrefs.le(o.backrefs)
    }

    proof fn lemma_join_idempotent(a: CommentM) {
        Set::<MessageKey>::lemma_join_idempotent(a.reply_to);
        Map::<u64, Cell>::lemma_join_idempotent(a.content);
        Map::<Seq<char>, Map<Seq<char>, u64>>::lemma_join_idempotent(a.reactions);
        Set::<MessageKey>::lemma_join_idempotent(a.backrefs);
    }

    proof fn lemma_join_commutative(a: CommentM, b: CommentM) {
        Set::<MessageKey>::lemma_join_commutative(a.reply_to, b.reply_to);
        Map::<u64, Cell>::lemma_join_commutative(a.content, b.content);
        Map::<Seq<char>, Map<Seq<char>, u64>>::lemma_join_commutative(a.reactions, b.reactions);
        Set::<MessageKey>::lemma_join_commutative(a.backrefs, b.backrefs);
    }

    proof fn lemma_join_associative(a: CommentM, b: CommentM, c: CommentM) {
        Set::<MessageKey>::lemma_join_associative(a.reply_to, b.reply_to, c.reply_to);
        Map::<u64, Cell>::lemma_join_associative(a.content, b.content, c.content);
        Map::<Seq<char>, Map<Seq<char>, u64>>::lemma_join_associative(
            a.reactions,
            b.reactions,
            c.reactions,
        );
        Set::<MessageKey>::lemma_join_associative(a.backrefs, b.backrefs, c.backrefs);
    }

    proof fn lemma_le_iff_join(a: CommentM, b: CommentM) {
        Set::<MessageKey>::lemma_le_iff_join(a.reply_to, b.reply_to);
        Map::<u64, Cell>::lemma_le_iff_join(a.content, b.content);
        Map::<Seq<char>, Map<Seq<char>, u64>>::lemma_le_iff_join(a.reactions, b.reactions);
        Set::<MessageKey>::lemma_le_iff_join(a.backrefs, b.backrefs);
    }
}

/// The model of the whole materialized view.
pub struct DetailedM {
    pub threads: Map<Seq<char>, Map<u64, ThreadM>>,
    pub messages: Map<Seq<char>, Map<u64, CommentM>>,
}

impl Lattice for DetailedM {
    open spec fn join(self, o: DetailedM) -> DetailedM {
        DetailedM { threads: self.threads.join(o.threads), messages: self.messages.join(o.messages) }
    }

    open spec fn le(self, o: DetailedM) -> bool {
        self.threads.le(o.threads) && self.messages.le(o.messages)
    }

    proof fn lemma_join_idempotent(a: DetailedM) {
        Map::<Seq<char>, Map<u64, ThreadM>>::lemma_join_idempotent(a.threads);
        Map::<Seq<char>, Map<u64, CommentM>>::lemma_join_idempotent(a.messages);
    }

    proof fn lemma_join_commutative(a: DetailedM, b: DetailedM) {
        Map::<Seq<char>, Map<u64, ThreadM>>::lemma_join_commutative(a.threads, b.threads);
        Map::<Seq<char>, Map<u64, CommentM>>::lemma_join_commutative(a.messages, b.messages);
    }

    proof fn lemma_join_associative(a: DetailedM, b: DetailedM, c: DetailedM) {
        Map::<Seq<char>, Map<u64, ThreadM>>::lemma_join_associative(a.threads, b.threads, c.threads);
        Map::<Seq<char>, Map<u64, CommentM>>::lemma_join_associative(
            a.messages,
            b.messages,
            c.messages,
        );
    }

    proof fn lemma_le_iff_join(a: DetailedM, b: DetailedM) {
        Map::<Seq<char>, Map<u64, ThreadM>>::lemma_le_iff_join(a.threads, b.threads);
        Map::<Seq<char>, Map<u64, CommentM>>::lemma_le_iff_join(a.messages, b.messages);
    }
}

pub open spec fn empty_view() -> DetailedM {
    DetailedM { threads: Map::empty(), messages: Map::empty() }
}

pub open spec fn comment_bottom() -> CommentM {
    CommentM {
        reply_to: Set::empty(),
        content: Map::empty(),
        reactions: Map::empty(),
        backrefs: Set::empty(),
    }
}

/// A private counter per key promoted to a vote attributed to `actor`.
pub open spec fn attributed(actor: Seq<char>, m: Map<Seq<char>, u64>) -> Map<Seq<char>, Map<Seq<char>, u64>> {
    Map::new(|r: Seq<char>| m.contains_key(r), |r: Seq<char>| Map::empty().insert(actor, m[r]))
}

/// What every actor contributes whatever they wrote: their thread table.
pub open spec fn actor_part(actor: Seq<char>) -> DetailedM {
    DetailedM { threads: Map::empty().insert(actor, Map::empty()), messages: Map::empty() }
}

/// What an owned item contributes: its titles, when it has some, and its
/// comment.
pub open spec fn owned_part(actor: Seq<char>, id: u64, o: OwnedM) -> DetailedM {
    DetailedM {
        threads: Map::empty().insert(
            actor,
            if o.titles.value != Set::<Seq<char>>::empty() {
                Map::empty().insert(id, ThreadM { titles: o.titles, tags: Map::empty() })
            } else {
                Map::empty()
            },
        ),
        messages: Map::empty().insert(
            actor,
            Map::empty().insert(id, CommentM { reply_to: o.reply_to, content: o.content, ..comment_bottom() }),
        ),
    }
}

/// What a reply edge from `(actor, id)` to `parent` contributes: the
/// back-reference on the parent.
pub open spec fn backref_part(actor: Seq<char>, id: u64, parent: MessageKey) -> DetailedM {
    DetailedM {
        threads: Map::empty(),
        messages: Map::empty().insert(
            parent.0,
            Map::empty().insert(
                parent.1,
                CommentM { backrefs: Set::empty().insert((actor, id)), ..comment_bottom() },
            ),
        ),
    }
}

/// What one actor's annotation of `target` contributes: the reactions and,
/// when there are some, the tags, as votes attributed to the actor.
pub open spec fn shared_part(actor: Seq<char>, target: MessageKey, s: SharedM) -> DetailedM {
    DetailedM {
        threads: if s.tags.dom() != Set::<Seq<char>>::empty() {
            Map::empty().insert(
                target.0,
                Map::empty().insert(
                    target.1,
                    ThreadM {
                        titles: Guarded { guard: 0, value: Set::empty() },
                        tags: attributed(actor, s.tags),
                    },
                ),
            )
        } else {
            Map::empty()
        },
        messages: Map::empty().insert(
            target.0,
            Map::empty().insert(
                target.1,
                CommentM { reactions: attributed(actor, s.reactions), ..comment_bottom() },
            ),
        ),
    }
}

/// Everything one actor's slice contributes to the view.
pub open spec fn slice_parts(actor: Seq<char>, s: SliceM) -> Set<DetailedM> {
    Set::new(
        |p: DetailedM|
            p == actor_part(actor) || (exists|id: u64|
                s.owned.contains_key(id) && p == #[trigger] owned_part(actor, id, s.owned[id])) || (
            exists|id: u64, q: MessageKey|
                s.owned.contains_key(id) && s.owned[id].reply_to.contains(q) && p
                    == #[trigger] backref_part(actor, id, q)) || (exists|k: MessageKey|
                s.shared.contains_key(k) && p == #[trigger] shared_part(actor, k, s.shared[k])),
    )
}

/// Everything a root contributes: the parts of each actor's slice.
pub open spec fn root_parts(r: Map<Seq<char>, SliceM>) -> Set<DetailedM> {
    Set::new(
        |p: DetailedM| exists|a: Seq<char>| r.contains_key(a) && #[trigger] slice_parts(a, r[a]).contains(p),
    )
}

/// What one owned item contributes, reply edges included.
pub open spec fn item_parts(actor: Seq<char>, id: u64, o: OwnedM) -> Set<DetailedM> {
    Set::new(
        |p: DetailedM|
            p == owned_part(actor, id, o) || exists|q: MessageKey|
                o.reply_to.contains(q) && p == #[trigger] backref_part(actor, id, q),
    )
}

/// The parts of the owned items whose numbers are in `ids`.
pub open spec fn items_parts(actor: Seq<char>, owned: Map<u64, OwnedM>, ids: Set<u64>) -> Set<DetailedM> {
    Set::new(
        |p: DetailedM| exists|id: u64| ids.contains(id) && #[trigger] item_parts(actor, id, owned[id]).contains(p),
    )
}

/// The parts of the annotations on the messages in `keys`.
pub open spec fn shareds_parts(actor: Seq<char>, shared: Map<MessageKey, SharedM>, keys: Set<MessageKey>) -> Set<DetailedM> {
    Set::new(
        |p: DetailedM| exists|k: MessageKey| keys.contains(k) && p == #[trigger] shared_part(actor, k, shared[k]),
    )
}

/// The parts of the slices of the actors in `actors`.
pub open spec fn slices_parts(r: Map<Seq<char>, SliceM>, actors: Set<Seq<char>>) -> Set<DetailedM> {
    Set::new(
        |p: DetailedM| exists|a: Seq<char>| actors.contains(a) && #[trigger] slice_parts(a, r[a]).contains(p),
    )
}

pub open spec fn join_step() -> spec_fn(DetailedM, DetailedM) -> DetailedM {
    |acc: DetailedM, p: DetailedM| acc.join(p)
}

/// `d` joined with every view of `parts`, in whatever order.
pub open spec fn join_all(d: DetailedM, parts: Set<DetailedM>) -> DetailedM {
    parts.fold(d, join_step())
}

pub proof fn lemma_join_step_commutative()
    ensures
        is_fun_commutative(join_step()),
{
    assert forall|a1: DetailedM, a2: DetailedM, b: DetailedM| #[trigger] join_step()(join_step()(b, a2), a1) == join_step()(join_step()(b, a1), a2) by {
        DetailedM::lemma_join_associative(b, a2, a1);
        DetailedM::lemma_join_associative(b, a1, a2);
        DetailedM::lemma_join_commutative(a1, a2);
    }
}

pub proof fn lemma_join_all_empty(d: DetailedM)
    ensures
        join_all(d, Set::empty()) == d,
{
    lemma_fold_empty(d, join_step());
}

/// Joining one more part, new or already there.
pub proof fn lemma_join_all_insert(d: DetailedM, parts: Set<DetailedM>, p: DetailedM)
    requires
        parts.finite(),
    ensures
        join_all(d, parts.insert(p)) == join_all(d, parts).join(p),
{
    lemma_join_step_commutative();
    if parts.contains(p) {
        let rest = parts.remove(p);
        assert(rest.insert(p) =~= parts);
        assert(parts.insert(p) =~= parts);
        lemma_fold_insert(rest, d, join_step(), p);
        let x = join_all(d, rest);
        DetailedM::lemma_join_associative(x, p, p);
        DetailedM::lemma_join_idempotent(p);
    } else {
        lemma_fold_insert(parts, d, join_step(), p);
    }
}

/// A categorical vote per actor: each actor's counter modulo `N` is their
/// opinion. The join is that of the underlying map.
pub struct Vote<const N: u64> {
    pub votes: GMap<ActorID, Max>,
}

impl<const N: u64> Join for Vote<N> {
    type M = Map<Seq<char>, u64>;

    open spec fn model(&self) -> Map<Seq<char>, u64> {
        self.votes.map_model()
    }

    fn join(&self, o: &Vote<N>) -> (r: Vote<N>) {
        assert(self.model().join(o.model()) == self.votes.model().join(o.votes.model()));
        Vote { votes: self.votes.join(&o.votes) }
    }

    fn duplicate(&self) -> (r: Vote<N>) {
        Vote { votes: self.votes.duplicate() }
    }

    fn leq(&self, o: &Vote<N>) -> (r: bool) {
        assert(self.model().le(o.model()) == self.votes.model().le(o.votes.model()));
        self.votes.leq(&o.votes)
    }
}

/// A thread's derived state: its titles and its tags' votes.
pub struct Thread {
    pub titles: GuardedPair<GSet<String>>,
    pub tags: GMap<String, Vote<4>>,
}

impl Join for Thread {
    type M = ThreadM;

    open spec fn model(&self) -> ThreadM {
        ThreadM { titles: self.titles.model(), tags: self.tags.model() }
    }

    fn join(&self, o: &Thread) -> (r: Thread) {
        let ghost a = ThreadM { titles: self.titles.model(), tags: self.tags.model() };
        let ghost b = ThreadM { titles: o.titles.model(), tags: o.tags.model() };
        assert(self.model().join(o.model()) == a.join(b));
        Thread { titles: self.titles.join(&o.titles), tags: self.tags.join(&o.tags) }
    }

    fn duplicate(&self) -> (r: Thread) {
        Thread { titles: self.titles.duplicate(), tags: self.tags.duplicate() }
    }

    fn leq(&self, o: &Thread) -> (r: bool) {
        let ghost a = ThreadM { titles: self.titles.model(), tags: self.tags.model() };
        let ghost b = ThreadM { titles: o.titles.model(), tags: o.tags.model() };
        assert(self.model().le(o.model()) == a.le(b));
        self.titles.leq(&o.titles) && self.tags.leq(&o.tags)
    }
}

/// A comment's derived state; `backrefs` is written by the fold alone.
pub struct Comment {
    pub reply_to: GSet<MessageID>,
    pub content: GMap<u64, Redactable>,
    pub reactions: GMap<String, Vote<2>>,
    pub backrefs: GSet<MessageID>,
}

impl Join for Comment {
    type M = CommentM;

    open spec fn model(&self) -> CommentM {
        CommentM {
            reply_to: self.reply_to.model(),
            content: self.content.model(),
            reactions: self.reactions.model(),
            backrefs: self.backrefs.model(),
        }
    }

    fn join(&self, o: &Comment) -> (r: Comment) {
        let ghost a = CommentM {
            reply_to: self.reply_to.model(),
            content: self.content.model(),
            reactions: self.reactions.model(),
            backrefs: self.backrefs.model(),
        };
        let ghost b = CommentM {
            reply_to: o.reply_to.model(),
            content: o.content.model(),
            reactions: o.reactions.model(),
            backrefs: o.backrefs.model(),
        };
        assert(self.model().join(o.model()) == a.join(b));
        Comment {
            reply_to: self.reply_to.join(&o.reply_to),
            content: self.content.join(&o.content),
            reactions: self.reactions.join(&o.reactions),
            backrefs: self.backrefs.join(&o.backrefs),
        }
    }

    fn duplicate(&self) -> (r: Comment) {
        Comment {
            reply_to: self.reply_to.duplicate(),
            content: self.content.duplicate(),
            reactions: self.reactions.duplicate(),
            backrefs: self.backrefs.duplicate(),
        }
    }

    fn leq(&self, o: &Comment) -> (r: bool) {
        let ghost a = CommentM {
            reply_to: self.reply_to.model(),
            content: self.content.model(),
            reactions: self.reactions.model(),
            backrefs: self.backrefs.model(),
        };
        let ghost b = CommentM {
            reply_to: o.reply_to.model(),
            content: o.content.model(),
            reactions: o.reactions.model(),
            backrefs: o.backrefs.model(),
        };
        assert(self.model().le(o.model()) == a.le(b));
        self.reply_to.leq(&o.reply_to) && self.content.leq(&o.content) && self.reactions.leq(
            &o.reactions,
        ) && self.backrefs.leq(&o.backrefs)
    }
}

impl Comment {
    fn bottom() -> (r: Comment)
        ensures
            r.model() == comment_bottom(),
    {
        let r = Comment {
            reply_to: GSet::new(),
            content: GMap::new(),
            reactions: GMap::new(),
            backrefs: GSet::new(),
        };
        assert(r.model() == comment_bottom());
        r
    }
}

/// The materialized view of a root: threads and comments of every actor.
pub struct Detailed {
    pub threads: GMap<ActorID, GMap<u64, Thread>>,
    pub messages: GMap<ActorID, GMap<u64, Comment>>,
}

impl Join for Detailed {
    type M = DetailedM;

    open spec fn model(&self) -> DetailedM {
        DetailedM { threads: self.threads.model(), messages: self.messages.model() }
    }

    fn join(&self, o: &Detailed) -> (r: Detailed) {
        let ghost a = DetailedM { threads: self.threads.model(), messages: self.messages.model() };
        let ghost b = DetailedM { threads: o.threads.model(), messages: o.messages.model() };
        assert(self.model().join(o.model()) == a.join(b));
        Detailed { threads: self.threads.join(&o.threads), messages: self.messages.join(&o.messages) }
    }

    fn duplicate(&self) -> (r: Detailed) {
        Detailed { threads: self.threads.duplicate(), messages: self.messages.duplicate() }
    }

    fn leq(&self, o: &Detailed) -> (r: bool) {
        let ghost a = DetailedM { threads: self.threads.model(), messages: self.messages.model() };
        let ghost b = DetailedM { threads: o.threads.model(), messages: o.messages.model() };
        assert(self.model().le(o.model()) == a.le(b));
        self.threads.leq(&o.threads) && self.messages.leq(&o.messages)
    }
}

/// `m`'s counters as votes attributed to `actor`.
fn attribute<const N: u64>(actor: &String, m: &GMap<String, Max>) -> (r: GMap<String, Vote<N>>)
    ensures
        r.map_model() == attributed(actor@, m.map_model()),
{
    let mut out: GMap<String, Vote<N>> = GMap::new();
    let mut i: usize = 0;
    while i < m.entries.len()
        invariant
            i <= m.entries.len(),
            out.map_model() == attributed(actor@, m.map_model()).restrict(
                Set::new(|r: Seq<char>| exists|t: int| 0 <= t < i && #[trigger] m.entries@[t].0@ == r),
            ),
        decreases m.entries.len() - i,
    {
        let ghost prev = out.map_model();
        let ghost k = m.entries@[i as int].0@;
        if m.find(&m.entries[i].0) == Some(i) {
            let vote: Vote<N> = Vote { votes: GMap::singleton(text_clone(actor), Max(m.entries[i].1.0)) };
            out.join_entry(text_clone(&m.entries[i].0), vote);
            proof {
                assert forall|t: int| 0 <= t < i implies #[trigger] m.entries@[t].0@ != k by {
                    assert(m.entries@[t].0.key_model() == m.entries@[t].0@);
                }
            }
        } else {
            proof {
                let j = choose|j: int| 0 <= j < m.entries.len() && m.entries@[j].0.key_model() == k && forall|t: int| 0 <= t < j ==> #[trigger] m.entries@[t].0.key_model() != k;
                lemma_entries_dom(m.entries@, k);
            }
        }
        i = i + 1;
        proof {
            assert(out.map_model() =~= attributed(actor@, m.map_model()).restrict(
                Set::new(|r: Seq<char>| exists|t: int| 0 <= t < i && #[trigger] m.entries@[t].0@ == r),
            ));
        }
    }
    proof {
        assert forall|r: Seq<char>| m.map_model().contains_key(r) implies exists|t: int| 0 <= t < m.entries.len() && #[trigger] m.entries@[t].0@ == r by {
            lemma_entries_dom(m.entries@, r);
            let t = choose|t: int| 0 <= t < m.entries.len() && #[trigger] m.entries@[t].0.key_model() == r;
            assert(m.entries@[t].0@ == r);
        }
    }
    assert(out.map_model() =~= attributed(actor@, m.map_model()));
    out
}

impl Detailed {
    pub fn new() -> (r: Detailed)
        ensures
            r.model() == empty_view(),
    {
        Detailed { threads: GMap::new(), messages: GMap::new() }
    }

    fn actor_view(actor: &String) -> (r: Detailed)
        ensures
            r.model() == actor_part(actor@),
    {
        let r = Detailed { threads: GMap::singleton(text_clone(actor), GMap::new()), messages: GMap::new() };
        assert(r.model() == actor_part(actor@));
        r
    }

    fn owned_view(actor: &String, id: u64, o: &Owned) -> (r: Detailed)
        ensures
            r.model() == owned_part(actor@, id, o.model()),
    {
        let threads = if o.titles.value.items.len() > 0 {
            assert(o.titles.value.set_model().contains(o.titles.value.items[0].key_model()));
            GMap::singleton(id, Thread { titles: o.titles.duplicate(), tags: GMap::new() })
        } else {
            assert(o.titles.value.set_model() =~= Set::<Seq<char>>::empty());
            GMap::new()
        };
        let mut c = Comment::bottom();
        c.reply_to = o.reply_to.duplicate();
        c.content = o.content.duplicate();
        let r = Detailed {
            threads: GMap::singleton(text_clone(actor), threads),
            messages: GMap::singleton(text_clone(actor), GMap::singleton(id, c)),
        };
        assert(r.model() =~= owned_part(actor@, id, o.model()));
        r
    }

    fn backref_view(actor: &String, id: u64, parent: &MessageID) -> (r: Detailed)
        ensures
            r.model() == backref_part(actor@, id, parent.key_model()),
    {
        let mut c = Comment::bottom();
        c.backrefs = GSet::singleton((text_clone(actor), id));
        let r = Detailed {
            threads: GMap::new(),
            messages: GMap::singleton(text_clone(&parent.0), GMap::singleton(parent.1, c)),
        };
        assert(r.model() =~= backref_part(actor@, id, parent.key_model()));
        r
    }

    fn shared_view(actor: &String, target: &MessageID, s: &Shared) -> (r: Detailed)
        ensures
            r.model() == shared_part(actor@, target.key_model(), s.model()),
    {
        let threads = if s.tags.entries.len() > 0 {
            proof {
                lemma_entries_dom(s.tags.entries@, s.tags.entries@[0].0.key_model());
                assert(s.tags.map_model().dom().contains(s.tags.entries@[0].0.key_model()));
            }
            let t = Thread {
                titles: GuardedPair { guard: Max(0), value: GSet::new() },
                tags: attribute(actor, &s.tags),
            };
            GMap::singleton(text_clone(&target.0), GMap::singleton(target.1, t))
        } else {
            assert(s.tags.map_model().dom() =~= Set::<Seq<char>>::empty());
            GMap::new()
        };
        let mut c = Comment::bottom();
        c.reactions = attribute(actor, &s.reactions);
        let r = Detailed {
            threads,
            messages: GMap::singleton(text_clone(&target.0), GMap::singleton(target.1, c)),
        };
        assert(r.model() =~= shared_part(actor@, target.key_model(), s.model()));
        r
    }
}

/// Joins into `d` what one owned item contributes.
fn fold_item(d: Detailed, actor: &String, id: u64, o: &Owned, base: Ghost<DetailedM>, parts: Ghost<Set<DetailedM>>) -> (r: Detailed)
    requires
        parts@.finite(),
        d.model() == join_all(base@, parts@),
    ensures
        item_parts(actor@, id, o.model()).finite(),
        r.model() == join_all(base@, parts@.union(item_parts(actor@, id, o.model()))),
{
    let ghost a = actor@;
    let ghost op = owned_part(a, id, o.model());
    let ghost items = o.reply_to.items@;
    proof {
        lemma_join_all_insert(base@, parts@, op);
    }
    let mut d = d.join(&Detailed::owned_view(actor, id, o));
    let ghost mut acc = parts@.insert(op);
    let mut t: usize = 0;
    while t < o.reply_to.items.len()
        invariant
            t <= o.reply_to.items.len(),
            items == o.reply_to.items@,
            a == actor@,
            op == owned_part(a, id, o.model()),
            acc.finite(),
            d.model() == join_all(base@, acc),
            acc == parts@.insert(op).union(
                Set::new(|p: DetailedM| exists|u: int| 0 <= u < t && p == #[trigger] backref_part(a, id, items[u].key_model())),
            ),
        decreases o.reply_to.items.len() - t,
    {
        let ghost bp = backref_part(a, id, items[t as int].key_model());
        proof {
            lemma_join_all_insert(base@, acc, bp);
        }
        d = d.join(&Detailed::backref_view(actor, id, &o.reply_to.items[t]));
        proof {
            acc = acc.insert(bp);
        }
        t = t + 1;
        proof {
            assert(acc =~= parts@.insert(op).union(
                Set::new(|p: DetailedM| exists|u: int| 0 <= u < t && p == #[trigger] backref_part(a, id, items[u].key_model())),
            ));
        }
    }
    proof {
        let ip = item_parts(a, id, o.model());
        assert forall|p: DetailedM| #[trigger] ip.contains(p) implies acc.contains(p) by {
            if p != op {
                let q = choose|q: MessageKey| o.reply_to.model().contains(q) && p == #[trigger] backref_part(a, id, q);
                let u = choose|u: int| 0 <= u < items.len() && items[u].key_model() == q;
                assert(p == backref_part(a, id, items[u].key_model()));
            }
        }
        assert forall|p: DetailedM| #[trigger] acc.contains(p) && !parts@.contains(p) implies ip.contains(p) by {
            if p != op {
                let u = choose|u: int| 0 <= u < items.len() && p == #[trigger] backref_part(a, id, items[u].key_model());
                assert(o.reply_to.model().contains(items[u].key_model()));
            }
        }
        assert(acc =~= parts@.union(ip));
        assert(ip.subset_of(acc));
        vstd::set_lib::lemma_set_subset_finite(acc, ip);
    }
    d
}

/// Joins into `d` what one actor's slice contributes.
fn fold_slice(d: Detailed, actor: &String, s: &Slice, base: Ghost<DetailedM>, parts: Ghost<Set<DetailedM>>) -> (r: Detailed)
    requires
        parts@.finite(),
        d.model() == join_all(base@, parts@),
    ensures
        slice_parts(actor@, s.model()).finite(),
        r.model() == join_all(base@, parts@.union(slice_parts(actor@, s.model()))),
{
    let ghost a = actor@;
    let ghost owned = s.owned.map_model();
    let ghost shared = s.shared.map_model();
    let ghost ap = actor_part(a);
    proof {
        lemma_join_all_insert(base@, parts@, ap);
    }
    let mut d = d.join(&Detailed::actor_view(actor));
    let ghost mut acc = parts@.insert(ap);
    let ghost mut done = Set::<u64>::empty();
    let mut j: usize = 0;
    while j < s.owned.entries.len()
        invariant
            j <= s.owned.entries.len(),
            a == actor@,
            owned == s.owned.map_model(),
            ap == actor_part(a),
            acc.finite(),
            d.model() == join_all(base@, acc),
            done.subset_of(owned.dom()),
            forall|t: int| 0 <= t < j ==> done.contains(#[trigger] s.owned.entries@[t].0),
            acc == parts@.insert(ap).union(items_parts(a, owned, done)),
        decreases s.owned.entries.len() - j,
    {
        let k = s.owned.entries[j].0;
        if s.owned.find(&k) == Some(j) {
            let ghost ip = item_parts(a, k, owned[k]);
            d = fold_item(d, actor, k, &s.owned.entries[j].1, base, Ghost(acc));
            proof {
                acc = acc.union(ip);
                done = done.insert(k);
                assert forall|p: DetailedM| #[trigger] items_parts(a, owned, done).contains(p) implies acc.contains(p) by {
                    let id = choose|id: u64| done.contains(id) && #[trigger] item_parts(a, id, owned[id]).contains(p);
                    if id != k {
                        assert(items_parts(a, owned, done.remove(k)).contains(p));
                    }
                }
                assert(acc =~= parts@.insert(ap).union(items_parts(a, owned, done)));
            }
        } else {
            proof {
                lemma_entries_dom(s.owned.entries@, k);
                assert(s.owned.entries@[j as int].0.key_model() == k);
            }
        }
        j = j + 1;
    }
    proof {
        assert forall|id: u64| owned.contains_key(id) implies done.contains(id) by {
            lemma_entries_dom(s.owned.entries@, id);
            let t = choose|t: int| 0 <= t < s.owned.entries.len() && #[trigger] s.owned.entries@[t].0.key_model() == id;
            assert(s.owned.entries@[t].0 == id);
        }
        assert(done =~= owned.dom());
    }
    let ghost mid = acc;
    let ghost mut sdone = Set::<MessageKey>::empty();
    proof {
        assert(mid.union(shareds_parts(a, shared, sdone)) =~= mid);
    }
    let mut i: usize = 0;
    while i < s.shared.entries.len()
        invariant
            i <= s.shared.entries.len(),
            a == actor@,
            shared == s.shared.map_model(),
            mid.finite(),
            acc.finite(),
            d.model() == join_all(base@, acc),
            sdone.subset_of(shared.dom()),
            forall|t: int| 0 <= t < i ==> sdone.contains(#[trigger] s.shared.entries@[t].0.key_model()),
            acc == mid.union(shareds_parts(a, shared, sdone)),
        decreases s.shared.entries.len() - i,
    {
        let k = &s.shared.entries[i].0;
        let ghost km = k.key_model();
        if s.shared.find(k) == Some(i) {
            let ghost sp = shared_part(a, km, shared[km]);
            proof {
                lemma_join_all_insert(base@, acc, sp);
            }
            d = d.join(&Detailed::shared_view(actor, k, &s.shared.entries[i].1));
            proof {
                acc = acc.insert(sp);
                sdone = sdone.insert(km);
                assert forall|p: DetailedM| #[trigger] shareds_parts(a, shared, sdone).contains(p) implies acc.contains(p) by {
                    let x = choose|x: MessageKey| sdone.contains(x) && p == #[trigger] shared_part(a, x, shared[x]);
                    if x != km {
                        assert(shareds_parts(a, shared, sdone.remove(km)).contains(p));
                    }
                }
                assert(acc =~= mid.union(shareds_parts(a, shared, sdone)));
            }
        } else {
            proof {
                lemma_entries_dom(s.shared.entries@, km);
            }
        }
        i = i + 1;
    }
    proof {
        assert forall|x: MessageKey| shared.contains_key(x) implies sdone.contains(x) by {
            lemma_entries_dom(s.shared.entries@, x);
            let t = choose|t: int| 0 <= t < s.shared.entries.len() && #[trigger] s.shared.entries@[t].0.key_model() == x;
        }
        assert(sdone =~= shared.dom());
        let sl = slice_parts(a, s.model());
        assert forall|p: DetailedM| #[trigger] sl.contains(p) implies acc.contains(p) by {
            if p == ap {
            } else if exists|id: u64| owned.contains_key(id) && p == #[trigger] owned_part(a, id, owned[id]) {
                let id = choose|id: u64| owned.contains_key(id) && p == #[trigger] owned_part(a, id, owned[id]);
                assert(item_parts(a, id, owned[id]).contains(p));
                assert(items_parts(a, owned, done).contains(p));
            } else if exists|id: u64, q: MessageKey| owned.contains_key(id) && owned[id].reply_to.contains(q) && p == #[trigger] backref_part(a, id, q) {
                let (id, q) = choose|id: u64, q: MessageKey| owned.contains_key(id) && owned[id].reply_to.contains(q) && p == #[trigger] backref_part(a, id, q);
                assert(item_parts(a, id, owned[id]).contains(p));
                assert(items_parts(a, owned, done).contains(p));
            } else {
                let k = choose|k: MessageKey| shared.contains_key(k) && p == #[trigger] shared_part(a, k, shared[k]);
                assert(shareds_parts(a, shared, sdone).contains(p));
            }
        }
        assert forall|p: DetailedM| #[trigger] acc.contains(p) && !parts@.contains(p) implies sl.contains(p) by {
            if p == ap {
            } else if items_parts(a, owned, done).contains(p) {
                let id = choose|id: u64| done.contains(id) && #[trigger] item_parts(a, id, owned[id]).contains(p);
                if p != owned_part(a, id, owned[id]) {
                    let q = choose|q: MessageKey| owned[id].reply_to.contains(q) && p == #[trigger] backref_part(a, id, q);
                }
            } else {
                let k = choose|k: MessageKey| sdone.contains(k) && p == #[trigger] shared_part(a, k, shared[k]);
            }
        }
        assert(acc =~= parts@.union(sl));
        assert(sl.subset_of(acc));
        vstd::set_lib::lemma_set_subset_finite(acc, sl);
    }
    d
}

impl Detailed {
    /// Folds every actor's slice of `root` into this view. The result is this
    /// view joined with the set of all parts that the slices contribute, so
    /// it depends neither on the order of actors nor on that of their items.
    pub fn join_root(&self, root: &Root) -> (r: Detailed)
        ensures
            root_parts(root.model()).finite(),
            r.model() == join_all(self.model(), root_parts(root.model())),
    {
        let ghost base = self.model();
        let ghost rm = root.model();
        proof {
            lemma_join_all_empty(base);
        }
        let mut d = self.duplicate();
        let ghost mut acc = Set::<DetailedM>::empty();
        let ghost mut done = Set::<Seq<char>>::empty();
        proof {
            assert(slices_parts(rm, done) =~= acc);
        }
        let mut i: usize = 0;
        while i < root.inner.entries.len()
            invariant
                i <= root.inner.entries.len(),
                rm == root.inner.map_model(),
                base == self.model(),
                acc.finite(),
                d.model() == join_all(base, acc),
                done.subset_of(rm.dom()),
                forall|t: int| 0 <= t < i ==> done.contains(#[trigger] root.inner.entries@[t].0@),
                acc == slices_parts(rm, done),
            decreases root.inner.entries.len() - i,
        {
            let a = &root.inner.entries[i].0;
            let ghost am = a@;
            if root.inner.find(a) == Some(i) {
                let ghost sp = slice_parts(am, rm[am]);
                d = fold_slice(d, a, &root.inner.entries[i].1, Ghost(base), Ghost(acc));
                proof {
                    acc = acc.union(sp);
                    done = done.insert(am);
                    assert forall|p: DetailedM| #[trigger] slices_parts(rm, done).contains(p) implies acc.contains(p) by {
                        let x = choose|x: Seq<char>| done.contains(x) && #[trigger] slice_parts(x, rm[x]).contains(p);
                        if x != am {
                            assert(slices_parts(rm, done.remove(am)).contains(p));
                        }
                    }
                    assert(acc =~= slices_parts(rm, done));
                }
            } else {
                proof {
                    lemma_entries_dom(root.inner.entries@, am);
                    assert(root.inner.entries@[i as int].0.key_model() == am);
                }
            }
            i = i + 1;
        }
        proof {
            assert forall|x: Seq<char>| rm.contains_key(x) implies done.contains(x) by {
                lemma_entries_dom(root.inner.entries@, x);
                let t = choose|t: int| 0 <= t < root.inner.entries.len() && #[trigger] root.inner.entries@[t].0.key_model() == x;
                assert(root.inner.entries@[t].0@ == x);
            }
            assert(done =~= rm.dom());
            assert(acc =~= root_parts(rm));
        }
        d
    }
}

/// How many actors of `votes` currently hold opinion `c`, out of `n`.
pub open spec fn tally(votes: Map<Seq<char>, u64>, n: u64, c: int) -> nat {
    votes.dom().filter(|a: Seq<char>| votes[a] % n == c).len()
}

impl<const N: u64> Vote<N> {
    /// The histogram of the actors' current opinions, one count per
    /// category; for display only, never for merging.
    pub fn aggregate(&self) -> (r: Vec<u64>)
        requires
            0 < N <= usize::MAX,
        ensures
            r@.len() == N,
            forall|c: int| 0 <= c < N ==> #[trigger] r@[c] == tally(self.model(), N, c),
    {
        let ghost m = self.model();
        let mut out: Vec<u64> = Vec::new();
        while out.len() < N as usize
            invariant
                out@.len() <= N,
                forall|c: int| 0 <= c < out@.len() ==> #[trigger] out@[c] == 0,
            decreases N - out@.len(),
        {
            out.push(0);
        }
        let ghost mut done = Set::<Seq<char>>::empty();
        proof {
            assert forall|c: int| 0 <= c < N implies #[trigger] out@[c] == done.filter(|a: Seq<char>| m[a] % N == c).len() by {
                assert(done.filter(|a: Seq<char>| m[a] % N == c) =~= Set::empty());
            }
        }
        let entries = &self.votes.entries;
        let mut i: usize = 0;
        while i < entries.len()
            invariant
                i <= entries.len(),
                m == self.votes.map_model(),
                entries == self.votes.entries,
                out@.len() == N,
                0 < N <= usize::MAX,
                done.finite(),
                done.len() <= i,
                done.subset_of(m.dom()),
                forall|t: int| 0 <= t < i ==> done.contains(#[trigger] entries@[t].0@),
                forall|x: Seq<char>| done.contains(x) ==> exists|t: int| 0 <= t < i && #[trigger] entries@[t].0@ == x,
                forall|c: int| 0 <= c < N ==> #[trigger] out@[c] == done.filter(|a: Seq<char>| m[a] % N == c).len(),
            decreases entries.len() - i,
        {
            let k = &entries[i].0;
            let ghost km = k@;
            if self.votes.find(k) == Some(i) {
                let cv: u64 = entries[i].1.0 % N;
                assert(cv < N);
                let c = cv as usize;
                assert(c as int == cv as int);
                proof {
                    assert(!done.contains(km)) by {
                        if done.contains(km) {
                            let t = choose|t: int| 0 <= t < i && #[trigger] entries@[t].0@ == km;
                            assert(entries@[t].0.key_model() == km);
                        }
                    }
                    assert(m[km] == entries@[i as int].1.0);
                    assert(m[km] % N == c as int);
                    let f = |a: Seq<char>| m[a] % N == c;
                    done.lemma_len_filter(f);
                }
                let v = out[c];
                out.set(c, v + 1);
                proof {
                    let old_done = done;
                    done = done.insert(km);
                    assert forall|d: int| 0 <= d < N implies #[trigger] out@[d] == done.filter(|a: Seq<char>| m[a] % N == d).len() by {
                        let f = |a: Seq<char>| m[a] % N == d;
                        if d == c as int {
                            assert(done.filter(f) =~= old_done.filter(f).insert(km));
                        } else {
                            assert(done.filter(f) =~= old_done.filter(f));
                        }
                    }
                }
            } else {
                proof {
                    lemma_entries_dom(entries@, km);
                    assert(entries@[i as int].0.key_model() == km);
                }
            }
            i = i + 1;
        }
        proof {
            assert forall|x: Seq<char>| m.contains_key(x) implies done.contains(x) by {
                lemma_entries_dom(entries@, x);
                let t = choose|t: int| 0 <= t < entries.len() && #[trigger] entries@[t].0.key_model() == x;
                assert(entries@[t].0@ == x);
            }
            assert(done =~= m.dom());
        }
        out
    }
}

impl Vote<4> {
    /// A tag's net score: its positive votes less its negative votes.
    pub fn net_score(&self) -> (r: i128)
        ensures
            r == tally(self.model(), 4, 1) - tally(self.model(), 4, 2),
    {
        let counts = self.aggregate();
        counts[1] as i128 - counts[2] as i128
    }
}

impl Default for Detailed {
    fn default() -> (r: Detailed)
        ensures
            r.model() == empty_view(),
    {
        Detailed::new()
    }
}

} // verus!
