//! The per-actor schema: what one actor authors, and the join of all actors.
use vstd::prelude::*;
use crate::lattice::{Cell, Guarded, Lattice};
use crate::primitives::{GMap, GSet, GuardedPair, Join, Max, Redactable};

verus! {

/// An actor's identity, for instance a public key.
pub type ActorID = String;

/// A message: its author, and a number that the author chose once.
pub type MessageID = (ActorID, u64);

pub type Reaction = String;

pub type Tag = String;

/// The model of a `MessageID`.
pub type MessageKey = (Seq<char>, u64);

/// The model of an `Owned`.
pub struct OwnedM {
    pub titles: Guarded<Set<Seq<char>>>,
    pub reply_to: Set<MessageKey>,
    pub content: Map<u64, Cell>,
}

impl Lattice for OwnedM {
    open spec fn join(self, o: OwnedM) -> OwnedM {
        OwnedM {
            titles: self.titles.join(o.titles),
            reply_to: self.reply_to.join(o.reply_to),
            content: self.content.join(o.content),
        }
    }

    open spec fn le(self, o: OwnedM) -> bool {
        self.titles.le(o.titles) && self.reply_to.le(o.reply_to) && self.content.le(o.content)
    }

    proof fn lemma_join_idempotent(a: OwnedM) {
        Guarded::<Set<Seq<char>>>::lemma_join_idempotent(a.titles);
        Set::<MessageKey>::lemma_join_idempotent(a.reply_to);
        Map::<u64, Cell>::lemma_join_idempotent(a.content);
    }

    proof fn lemma_join_commutative(a: OwnedM, b: OwnedM) {
        Guarded::<Set<Seq<char>>>::lemma_join_commutative(a.titles, b.titles);
        Set::<MessageKey>::lemma_join_commutative(a.reply_to, b.reply_to);
        Map::<u64, Cell>::lemma_join_commutative(a.content, b.content);
    }

    proof fn lemma_join_associative(a: OwnedM, b: OwnedM, c: OwnedM) {
        Guarded::<Set<Seq<char>>>::lemma_join_associative(a.titles, b.titles, c.titles);
        Set::<MessageKey>::lemma_join_associative(a.reply_to, b.reply_to, c.reply_to);
        Map::<u64, Cell>::lemma_join_associative(a.content, b.content, c.content);
    }

    proof fn lemma_le_iff_join(a: OwnedM, b: OwnedM) {
        Guarded::<Set<Seq<char>>>::lemma_le_iff_join(a.titles, b.titles);
        Set::<MessageKey>::lemma_le_iff_join(a.reply_to, b.reply_to);
        Map::<u64, Cell>::lemma_le_iff_join(a.content, b.content);
    }
}

/// The model of a `Shared`.
pub struct SharedM {
    pub tags: Map<Seq<char>, u64>,
    pub reactions: Map<Seq<char>, u64>,
}

impl Lattice for SharedM {
    open spec fn join(self, o: SharedM) -> SharedM {
        SharedM { tags: self.tags.join(o.tags), reactions: self.reactions.join(o.reactions) }
    }

    open spec fn le(self, o: SharedM) -> bool {
        self.tags.le(o.tags) && self.reactions.le(o.reactions)
    }

    proof fn lemma_join_idempotent(a: SharedM) {
        Map::<Seq<char>, u64>::lemma_join_idempotent(a.tags);
        Map::<Seq<char>, u64>::lemma_join_idempotent(a.reactions);
    }

    proof fn lemma_join_commutative(a: SharedM, b: SharedM) {
        Map::<Seq<char>, u64>::lemma_join_commutative(a.tags, b.tags);
        Map::<Seq<char>, u64>::lemma_join_commutative(a.reactions, b.reactions);
    }

    proof fn lemma_join_associative(a: SharedM, b: SharedM, c: SharedM) {
        Map::<Seq<char>, u64>::lemma_join_associative(a.tags, b.tags, c.tags);
        Map::<Seq<char>, u64>::lemma_join_associative(a.reactions, b.reactions, c.reactions);
    }

    proof fn lemma_le_iff_join(a: SharedM, b: SharedM) {
        Map::<Seq<char>, u64>::lemma_le_iff_join(a.tags, b.tags);
        Map::<Seq<char>, u64>::lemma_le_iff_join(a.reactions, b.reactions);
    }
}

/// The model of a `Slice`.
pub struct SliceM {
    pub owned: Map<u64, OwnedM>,
    pub shared: Map<MessageKey, SharedM>,
}

impl Lattice for SliceM {
    open spec fn join(self, o: SliceM) -> SliceM {
        SliceM { owned: self.owned.join(o.owned), shared: self.shared.join(o.shared) }
    }

    open spec fn le(self, o: SliceM) -> bool {
        self.owned.le(o.owned) && self.shared.le(o.shared)
    }

    proof fn lemma_join_idempotent(a: SliceM) {
        Map::<u64, OwnedM>::lemma_join_idempotent(a.owned);
        Map::<MessageKey, SharedM>::lemma_join_idempotent(a.shared);
    }

    proof fn lemma_join_commutative(a: SliceM, b: SliceM) {
        Map::<u64, OwnedM>::lemma_join_commutative(a.owned, b.owned);
        Map::<MessageKey, SharedM>::lemma_join_commutative(a.shared, b.shared);
    }

    proof fn lemma_join_associative(a: SliceM, b: SliceM, c: SliceM) {
        Map::<u64, OwnedM>::lemma_join_associative(a.owned, b.owned, c.owned);
        Map::<MessageKey, SharedM>::lemma_join_associative(a.shared, b.shared, c.shared);
    }

    proof fn lemma_le_iff_join(a: SliceM, b: SliceM) {
        Map::<u64, OwnedM>::lemma_le_iff_join(a.owned, b.owned);
        Map::<MessageKey, SharedM>::lemma_le_iff_join(a.shared, b.shared);
    }
}

/// What one actor may write about one of their own messages.
pub struct Owned {
    pub titles: GuardedPair<GSet<String>>,
    pub reply_to: GSet<MessageID>,
    pub content: GMap<u64, Redactable>,
}

impl Join for Owned {
    type M = OwnedM;

    open spec fn model(&self) -> OwnedM {
        OwnedM {
            titles: self.titles.model(),
            reply_to: self.reply_to.model(),
            content: self.content.model(),
        }
    }

    fn join(&self, o: &Owned) -> (r: Owned) {
        let ghost a = OwnedM {
            titles: self.titles.model(),
            reply_to: self.reply_to.model(),
            content: self.content.model(),
        };
        let ghost b = OwnedM {
            titles: o.titles.model(),
            reply_to: o.reply_to.model(),
            content: o.content.model(),
        };
        assert(self.model().join(o.model()) == a.join(b));
        Owned {
            titles: self.titles.join(&o.titles),
            reply_to: self.reply_to.join(&o.reply_to),
            content: self.content.join(&o.content),
        }
    }

    fn duplicate(&self) -> (r: Owned) {
        Owned {
            titles: self.titles.duplicate(),
            reply_to: self.reply_to.duplicate(),
            content: self.content.duplicate(),
        }
    }

    fn leq(&self, o: &Owned) -> (r: bool) {
        let ghost a = OwnedM {
            titles: self.titles.model(),
            reply_to: self.reply_to.model(),
            content: self.content.model(),
        };
        let ghost b = OwnedM {
            titles: o.titles.model(),
            reply_to: o.reply_to.model(),
            content: o.content.model(),
        };
        assert(self.model().le(o.model()) == a.le(b));
        self.titles.leq(&o.titles) && self.reply_to.leq(&o.reply_to) && self.content.leq(&o.content)
    }
}

/// One actor's private opinion counters about one message.
pub struct Shared {
    pub tags: GMap<Tag, Max>,
    pub reactions: GMap<Reaction, Max>,
}

impl Join for Shared {
    type M = SharedM;

    open spec fn model(&self) -> SharedM {
        SharedM { tags: self.tags.model(), reactions: self.reactions.model() }
    }

    fn join(&self, o: &Shared) -> (r: Shared) {
        let ghost a = SharedM { tags: self.tags.model(), reactions: self.reactions.model() };
        let ghost b = SharedM { tags: o.tags.model(), reactions: o.reactions.model() };
        assert(self.model().join(o.model()) == a.join(b));
        Shared { tags: self.tags.join(&o.tags), reactions: self.reactions.join(&o.reactions) }
    }

    fn duplicate(&self) -> (r: Shared) {
        Shared { tags: self.tags.duplicate(), reactions: self.reactions.duplicate() }
    }

    fn leq(&self, o: &Shared) -> (r: bool) {
        let ghost a = SharedM { tags: self.tags.model(), reactions: self.reactions.model() };
        let ghost b = SharedM { tags: o.tags.model(), reactions: o.reactions.model() };
        assert(self.model().le(o.model()) == a.le(b));
        self.tags.leq(&o.tags) && self.reactions.leq(&o.reactions)
    }
}

impl Shared {
    pub fn new() -> (r: Shared)
        ensures
            r.model() == (SharedM { tags: Map::empty(), reactions: Map::empty() }),
    {
        Shared { tags: GMap::new(), reactions: GMap::new() }
    }
}

/// One actor's whole private, append-only state.
pub struct Slice {
    pub owned: GMap<u64, Owned>,
    pub shared: GMap<MessageID, Shared>,
}

impl Join for Slice {
    type M = SliceM;

    open spec fn model(&self) -> SliceM {
        SliceM { owned: self.owned.model(), shared: self.shared.model() }
    }

    fn join(&self, o: &Slice) -> (r: Slice) {
        let ghost a = SliceM { owned: self.owned.model(), shared: self.shared.model() };
        let ghost b = SliceM { owned: o.owned.model(), shared: o.shared.model() };
        assert(self.model().join(o.model()) == a.join(b));
        Slice { owned: self.owned.join(&o.owned), shared: self.shared.join(&o.shared) }
    }

    fn duplicate(&self) -> (r: Slice) {
        Slice { owned: self.owned.duplicate(), shared: self.shared.duplicate() }
    }

    fn leq(&self, o: &Slice) -> (r: bool) {
        let ghost a = SliceM { owned: self.owned.model(), shared: self.shared.model() };
        let ghost b = SliceM { owned: o.owned.model(), shared: o.shared.model() };
        assert(self.model().le(o.model()) == a.le(b));
        self.owned.leq(&o.owned) && self.shared.leq(&o.shared)
    }
}

impl Slice {
    pub open spec fn wf(&self) -> bool {
        self.owned.wf()
    }

    pub fn new() -> (r: Slice)
        ensures
            r.wf(),
            r.model() == (SliceM { owned: Map::empty(), shared: Map::empty() }),
    {
        Slice { owned: GMap::new(), shared: GMap::new() }
    }
}

/// The join of all known actors' slices; the unit of replication.
pub struct Root {
    pub inner: GMap<ActorID, Slice>,
}

impl Join for Root {
    type M = Map<Seq<char>, SliceM>;

    open spec fn model(&self) -> Map<Seq<char>, SliceM> {
        self.inner.model()
    }

    fn join(&self, o: &Root) -> (r: Root) {
        assert(self.model().join(o.model()) == self.inner.model().join(o.inner.model()));
        Root { inner: self.inner.join(&o.inner) }
    }

    fn duplicate(&self) -> (r: Root) {
        Root { inner: self.inner.duplicate() }
    }

    fn leq(&self, o: &Root) -> (r: bool) {
        assert(self.model().le(o.model()) == self.inner.model().le(o.inner.model()));
        self.inner.leq(&o.inner)
    }
}

impl Root {
    pub fn new() -> (r: Root)
        ensures
            r.model() == Map::<Seq<char>, SliceM>::empty(),
    {
        Root { inner: GMap::new() }
    }

    /// The slice of one actor, joined into what is known of it.
    pub fn add_slice(&mut self, actor: ActorID, slice: Slice)
        ensures
            final(self).inner.wf(),
            final(self).model() == old(self).model().join(
                Map::<Seq<char>, SliceM>::empty().insert(actor@, slice.model()),
            ),
    {
        self.inner.join_entry(actor, slice);
    }
}

impl Default for Slice {
    fn default() -> (r: Slice)
        ensures
            r.wf(),
            r.model() == (SliceM { owned: Map::empty(), shared: Map::empty() }),
    {
        Slice::new()
    }
}

impl Default for Root {
    fn default() -> (r: Root)
        ensures
            r.model() == Map::<Seq<char>, SliceM>::empty(),
    {
        Root::new()
    }
}

} // verus!
