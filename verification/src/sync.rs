//! Sync-queue replay. A drain pass snapshots the queue in replay order
//! (deck creations before card creations, first-in-first-out within each
//! kind) together with each queued card's parent-deck linkage, then walks
//! the snapshot step by step: the caller performs one network request per
//! step and reports the outcome. Card entries resolve their parent deck's
//! remote identifier preferring a mapping produced by a deck synced
//! earlier in this same pass over any previously-persisted identifier;
//! unresolvable cards are passed over and stay queued. Failures are
//! non-fatal and leave entries queued. When the pass finishes, all
//! successful outcomes are applied to the store in one step, separate
//! from any network traffic.
use vstd::prelude::*;

use crate::models::{
    CardPayload, DeckPayload, EntityKind, QueuePayload, SyncQueueItem, SyncQueueItemV,
};
use crate::store::{
    apply_one_synced, deck_remote_of, has_card, is_card_entry, is_deck_entry, ordered_queue, Store,
    StoreView,
};

verus! {

// ============================================
// Pass data
// ============================================
/// One successfully replayed entry, awaiting application to the store.
pub struct SyncedItem {
    pub queue_id: u64,
    pub entity_id: String,
    pub kind: EntityKind,
    pub remote_id: i64,
}

#[verifier::ext_equal]
pub ghost struct SyncedItemV {
    pub queue_id: u64,
    pub entity_id: Seq<char>,
    pub kind: EntityKind,
    pub remote_id: i64,
}

impl View for SyncedItem {
    type V = SyncedItemV;

    open spec fn view(&self) -> SyncedItemV {
        SyncedItemV {
            queue_id: self.queue_id,
            entity_id: self.entity_id@,
            kind: self.kind,
            remote_id: self.remote_id,
        }
    }
}

/// A queued card's parent linkage, captured when the pass begins.
pub struct CardParent {
    pub card_id: String,
    pub deck_id: String,
    pub deck_remote_id: Option<i64>,
}

#[verifier::ext_equal]
pub ghost struct CardParentV {
    pub card_id: Seq<char>,
    pub deck_id: Seq<char>,
    pub deck_remote_id: Option<i64>,
}

impl View for CardParent {
    type V = CardParentV;

    open spec fn view(&self) -> CardParentV {
        CardParentV {
            card_id: self.card_id@,
            deck_id: self.deck_id@,
            deck_remote_id: self.deck_remote_id,
        }
    }
}

/// A local-to-remote deck mapping produced within the running pass.
pub struct DeckMapEntry {
    pub local_id: String,
    pub remote_id: i64,
}

#[verifier::ext_equal]
pub ghost struct DeckMapEntryV {
    pub local_id: Seq<char>,
    pub remote_id: i64,
}

impl View for DeckMapEntry {
    type V = DeckMapEntryV;

    open spec fn view(&self) -> DeckMapEntryV {
        DeckMapEntryV { local_id: self.local_id@, remote_id: self.remote_id }
    }
}

/// What the caller should do next.
pub enum DrainStep {
    /// Post this payload to the remote deck collection.
    PostDeck(DeckPayload),
    /// Post this payload to the card collection of the deck with the
    /// given remote identifier.
    PostCard(i64, CardPayload),
    /// The current entry cannot be replayed yet (its deck has no remote
    /// identifier); pass it over and leave it queued.
    Skip,
    /// The snapshot is exhausted.
    Done,
}

// ============================================
// Resolution
// ============================================
/// First mapping for a deck produced in this pass, if any.
pub open spec fn lookup_map(m: Seq<DeckMapEntryV>, k: Seq<char>) -> Option<i64>
    decreases m.len(),
{
    if m.len() == 0 {
        Option::None
    } else if m[0].local_id == k {
        Option::Some(m[0].remote_id)
    } else {
        lookup_map(m.drop_first(), k)
    }
}

/// First captured parent record for a card, if any.
pub open spec fn lookup_parent(ps: Seq<CardParentV>, cid: Seq<char>) -> Option<CardParentV>
    decreases ps.len(),
{
    if ps.len() == 0 {
        Option::None
    } else if ps[0].card_id == cid {
        Option::Some(ps[0])
    } else {
        lookup_parent(ps.drop_first(), cid)
    }
}

#[verifier::ext_equal]
pub ghost struct DrainPassV {
    pub items: Seq<SyncQueueItemV>,
    pub parents: Seq<CardParentV>,
    pub pos: int,
    pub deck_map: Seq<DeckMapEntryV>,
    pub synced: Seq<SyncedItemV>,
}

/// The remote deck identifier a queued card resolves to: a mapping from
/// this pass if its deck was just created remotely, else the identifier
/// persisted when the pass began.
pub open spec fn resolve_remote(p: DrainPassV, cid: Seq<char>) -> Option<i64> {
    match lookup_parent(p.parents, cid) {
        Option::None => Option::None,
        Option::Some(par) => match lookup_map(p.deck_map, par.deck_id) {
            Option::Some(r) => Option::Some(r),
            Option::None => par.deck_remote_id,
        },
    }
}

/// How the outcomes of one pass land back in the store, applied in
/// order.
pub open spec fn apply_synced(v: StoreView, items: Seq<SyncedItemV>, now: int) -> StoreView
    decreases items.len(),
{
    if items.len() == 0 {
        v
    } else {
        let prev = apply_synced(v, items.drop_last(), now);
        apply_one_synced(
            prev,
            items.last().kind,
            items.last().entity_id,
            items.last().queue_id,
            items.last().remote_id,
            now,
        )
    }
}

// ============================================
// Laws of the drain
// ============================================
/// Applying no outcomes changes nothing: draining an empty queue is a
/// no-op.
pub proof fn lemma_apply_synced_empty(v: StoreView, now: int)
    ensures
        apply_synced(v, Seq::<SyncedItemV>::empty(), now) == v,
{
}

/// A store whose queue is empty yields an empty replay snapshot.
pub proof fn lemma_empty_queue_empty_snapshot(v: StoreView)
    requires
        v.queue.len() == 0,
    ensures
        ordered_queue(v).len() == 0,
{
    reveal(Seq::filter);
}

/// In the replay snapshot, every deck entry precedes every card entry:
/// a card queued before its parent deck cannot be reached before the
/// deck's own create entry.
pub proof fn lemma_ordered_queue_decks_first(v: StoreView, i: int, j: int)
    requires
        0 <= i < j < ordered_queue(v).len(),
        ordered_queue(v)[i].entity_type == EntityKind::Card,
    ensures
        ordered_queue(v)[j].entity_type == EntityKind::Card,
{
    broadcast use vstd::seq_lib::group_filter_ensures;

    let decks = v.queue.filter(|e: SyncQueueItemV| is_deck_entry(e));
    let cards = v.queue.filter(|e: SyncQueueItemV| is_card_entry(e));
    if i < decks.len() {
        assert(is_deck_entry(decks[i]));
        assert(false);
    }
    assert(is_card_entry(cards[j - decks.len()]));
}

/// Once a deck's creation has succeeded in this pass, every card of that
/// deck resolves to the deck's new remote identifier (the pass mapping
/// takes precedence over any persisted state).
pub proof fn lemma_card_resolves_after_deck(p: DrainPassV, cid: Seq<char>, r: i64)
    requires
        lookup_parent(p.parents, cid).is_some(),
        lookup_map(p.deck_map, lookup_parent(p.parents, cid).unwrap().deck_id) == Option::Some(r),
    ensures
        resolve_remote(p, cid) == Option::Some(r),
{
}

/// Looking a key up right after recording it finds it, unless an earlier
/// entry for the same key already existed.
pub proof fn lemma_lookup_map_push(m: Seq<DeckMapEntryV>, e: DeckMapEntryV, k: Seq<char>)
    ensures
        lookup_map(m.push(e), k) == if lookup_map(m, k).is_some() {
            lookup_map(m, k)
        } else if e.local_id == k {
            Option::Some(e.remote_id)
        } else {
            Option::None
        },
    decreases m.len(),
{
    if m.len() == 0 {
        assert(m.push(e)[0] == e);
        assert(m.push(e).drop_first() =~= Seq::<DeckMapEntryV>::empty());
        assert(lookup_map(Seq::<DeckMapEntryV>::empty(), k).is_none());
        assert(lookup_map(m, k).is_none());
    } else {
        assert(m.push(e).drop_first() =~= m.drop_first().push(e));
        lemma_lookup_map_push(m.drop_first(), e, k);
    }
}

proof fn lemma_lookup_parent_at(ps: Seq<CardParentV>, cid: Seq<char>, j: int)
    requires
        0 <= j < ps.len(),
        ps[j].card_id == cid,
        forall|k: int| 0 <= k < j ==> (#[trigger] ps[k]).card_id != cid,
    ensures
        lookup_parent(ps, cid) == Option::Some(ps[j]),
    decreases j,
{
    if j > 0 {
        lemma_lookup_parent_at(ps.drop_first(), cid, j - 1);
    }
}

proof fn lemma_lookup_parent_none(ps: Seq<CardParentV>, cid: Seq<char>)
    requires
        forall|k: int| 0 <= k < ps.len() ==> (#[trigger] ps[k]).card_id != cid,
    ensures
        lookup_parent(ps, cid).is_none(),
    decreases ps.len(),
{
    if ps.len() > 0 {
        lemma_lookup_parent_none(ps.drop_first(), cid);
    }
}

proof fn lemma_lookup_map_at(m: Seq<DeckMapEntryV>, k: Seq<char>, j: int)
    requires
        0 <= j < m.len(),
        m[j].local_id == k,
        forall|a: int| 0 <= a < j ==> (#[trigger] m[a]).local_id != k,
    ensures
        lookup_map(m, k) == Option::Some(m[j].remote_id),
    decreases j,
{
    if j > 0 {
        lemma_lookup_map_at(m.drop_first(), k, j - 1);
    }
}

proof fn lemma_lookup_map_none(m: Seq<DeckMapEntryV>, k: Seq<char>)
    requires
        forall|a: int| 0 <= a < m.len() ==> (#[trigger] m[a]).local_id != k,
    ensures
        lookup_map(m, k).is_none(),
    decreases m.len(),
{
    if m.len() > 0 {
        lemma_lookup_map_none(m.drop_first(), k);
    }
}

// ============================================
// The pass
// ============================================
/// One sync pass over a snapshot of the queue.
pub struct DrainPass {
    items: Vec<SyncQueueItem>,
    parents: Vec<CardParent>,
    pos: usize,
    deck_map: Vec<DeckMapEntry>,
    synced: Vec<SyncedItem>,
}

impl View for DrainPass {
    type V = DrainPassV;

    closed spec fn view(&self) -> DrainPassV {
        DrainPassV {
            items: self.items@.map_values(|x: SyncQueueItem| x@),
            parents: self.parents@.map_values(|x: CardParent| x@),
            pos: self.pos as int,
            deck_map: self.deck_map@.map_values(|x: DeckMapEntry| x@),
            synced: self.synced@.map_values(|x: SyncedItem| x@),
        }
    }
}

impl DrainPass {
    /// Snapshots the queue in replay order, together with the parent
    /// linkage of every queued card that still exists.
    pub fn begin(store: &Store) -> (p: DrainPass)
        requires
            store.wf(),
        ensures
            p@.items == ordered_queue(store@),
            p@.pos == 0,
            p@.deck_map.len() == 0,
            p@.synced.len() == 0,
            forall|j: int|
                #![trigger p@.parents[j]]
                0 <= j < p@.parents.len() ==> exists|i: int|
                    0 <= i < store@.cards.len() && (#[trigger] store@.cards[i]).id
                        == p@.parents[j].card_id && store@.cards[i].deck_id == p@.parents[j].deck_id
                        && p@.parents[j].deck_remote_id == deck_remote_of(
                        store@,
                        store@.cards[i].deck_id,
                    ),
            forall|k: int|
                0 <= k < p@.items.len() && (#[trigger] p@.items[k]).entity_type == EntityKind::Card
                    && has_card(store@, p@.items[k].entity_id) ==> exists|j: int|
                    0 <= j < p@.parents.len() && (#[trigger] p@.parents[j]).card_id == p@.items[
                        k
                    ].entity_id,
    {
        let items = store.snapshot_queue_ordered();
        let n = items.len();
        let mut parents: Vec<CardParent> = Vec::new();
        let mut i: usize = 0;
        while i < n
            invariant
                store.wf(),
                n == items.len(),
                i <= n,
                items@.map_values(|x: SyncQueueItem| x@) == ordered_queue(store@),
                forall|j: int|
                    #![trigger parents@[j]]
                    0 <= j < parents@.len() ==> exists|w: int|
                        0 <= w < store@.cards.len() && (#[trigger] store@.cards[w]).id
                            == parents@[j]@.card_id && store@.cards[w].deck_id
                            == parents@[j]@.deck_id && parents@[j]@.deck_remote_id
                            == deck_remote_of(store@, store@.cards[w].deck_id),
                forall|k: int|
                    0 <= k < i && (#[trigger] items@[k])@.entity_type == EntityKind::Card
                        && has_card(store@, items@[k]@.entity_id) ==> exists|j: int|
                        0 <= j < parents@.len() && (#[trigger] parents@[j])@.card_id
                            == items@[k]@.entity_id,
            decreases n - i,
        {
            let is_card = match items[i].entity_type {
                EntityKind::Card => true,
                EntityKind::Deck => false,
            };
            if is_card {
                match store.deck_remote_for_card(items[i].entity_id.as_str()) {
                    Option::Some(pair) => {
                        let (deck_id, remote) = pair;
                        let cp = CardParent {
                            card_id: items[i].entity_id.clone(),
                            deck_id,
                            deck_remote_id: remote,
                        };
                        let ghost oldparents = parents@;
                        parents.push(cp);
                        proof {
                            assert(forall|j: int|
                                0 <= j < oldparents.len() ==> parents@[j] == oldparents[j]);
                            assert(parents@[oldparents.len() as int]@.card_id == items@[
                                i as int
                            ]@.entity_id);
                        }
                    },
                    Option::None => {},
                }
            }
            i += 1;
        }
        let p = DrainPass { items, parents, pos: 0, deck_map: Vec::new(), synced: Vec::new() };
        proof {
            assert forall|j: int|
                #![trigger p@.parents[j]]
                0 <= j < p@.parents.len() implies exists|w: int|
                0 <= w < store@.cards.len() && (#[trigger] store@.cards[w]).id == p@.parents[
                    j
                ].card_id && store@.cards[w].deck_id == p@.parents[j].deck_id && p@.parents[
                    j
                ].deck_remote_id == deck_remote_of(store@, store@.cards[w].deck_id) by {
                assert(p@.parents[j] == parents@[j]@);
                let w = choose|w: int|
                    0 <= w < store@.cards.len() && (#[trigger] store@.cards[w]).id
                        == parents@[j]@.card_id && store@.cards[w].deck_id == parents@[j]@.deck_id
                        && parents@[j]@.deck_remote_id == deck_remote_of(
                        store@,
                        store@.cards[w].deck_id,
                    );
                assert(store@.cards[w].id == p@.parents[j].card_id);
            }
            assert forall|k: int|
                0 <= k < p@.items.len() && (#[trigger] p@.items[k]).entity_type == EntityKind::Card
                    && has_card(store@, p@.items[k].entity_id) implies exists|j: int|
                0 <= j < p@.parents.len() && (#[trigger] p@.parents[j]).card_id == p@.items[
                    k
                ].entity_id by {
                assert(items@[k]@ == p@.items[k]);
                let j = choose|j: int|
                    0 <= j < parents@.len() && (#[trigger] parents@[j])@.card_id
                        == items@[k]@.entity_id;
                assert(p@.parents[j].card_id == p@.items[k].entity_id);
            }
        }
        p
    }

    /// What to do next: post the current entry, pass over an
    /// unresolvable card, or stop.
    pub fn next_step(&self) -> (r: DrainStep)
        ensures
            self@.pos >= self@.items.len() <==> r is Done,
            r matches DrainStep::PostDeck(pl) ==> {
                &&& self@.pos < self@.items.len()
                &&& (self@.items[self@.pos].payload matches crate::models::QueuePayloadV::Deck(
                    plv,
                ) && pl@ == plv)
            },
            r matches DrainStep::PostCard(rid, pl) ==> {
                &&& self@.pos < self@.items.len()
                &&& (self@.items[self@.pos].payload matches crate::models::QueuePayloadV::Card(
                    plv,
                ) && pl@ == plv)
                &&& resolve_remote(self@, self@.items[self@.pos].entity_id) == Option::Some(rid)
            },
            r is Skip ==> {
                &&& self@.pos < self@.items.len()
                &&& (self@.items[self@.pos].payload matches crate::models::QueuePayloadV::Card(
                    plv,
                ) && plv == plv)
                &&& resolve_remote(self@, self@.items[self@.pos].entity_id).is_none()
            },
    {
        if self.pos >= self.items.len() {
            return DrainStep::Done;
        }
        let item = &self.items[self.pos];
        match &item.payload {
            QueuePayload::Deck(pl) => DrainStep::PostDeck(pl.clone()),
            QueuePayload::Card(pl) => {
                match self.resolve(item.entity_id.as_str()) {
                    Option::Some(rid) => DrainStep::PostCard(rid, pl.clone()),
                    Option::None => DrainStep::Skip,
                }
            },
        }
    }

    /// Resolves the remote deck identifier for a queued card.
    fn resolve(&self, card_id: &str) -> (r: Option<i64>)
        ensures
            r == resolve_remote(self@, card_id@),
    {
        let np = self.parents.len();
        let mut j: usize = 0;
        let mut found: Option<usize> = Option::None;
        while j < np && found.is_none()
            invariant
                np == self.parents.len(),
                j <= np,
                match found {
                    Option::Some(pj) => pj < np && self@.parents[pj as int].card_id == card_id@
                        && lookup_parent(self@.parents, card_id@) == Option::Some(
                        self@.parents[pj as int],
                    ),
                    Option::None => forall|k: int|
                        0 <= k < j ==> (#[trigger] self@.parents[k]).card_id != card_id@,
                },
            decreases np - j, (if found.is_none() { 1int } else { 0int }),
        {
            if crate::text::str_eq(self.parents[j].card_id.as_str(), card_id) {
                found = Option::Some(j);
                proof {
                    lemma_lookup_parent_at(self@.parents, card_id@, j as int);
                }
            } else {
                j += 1;
            }
        }
        let pj = match found {
            Option::Some(pj) => pj,
            Option::None => {
                proof {
                    lemma_lookup_parent_none(self@.parents, card_id@);
                }
                return Option::None;
            },
        };
        // Prefer a mapping produced in this pass.
        let nm = self.deck_map.len();
        let mut a: usize = 0;
        while a < nm
            invariant
                nm == self.deck_map.len(),
                pj < self.parents.len(),
                self@.parents[pj as int].card_id == card_id@,
                lookup_parent(self@.parents, card_id@) == Option::Some(self@.parents[pj as int]),
                a <= nm,
                forall|k: int|
                    0 <= k < a ==> (#[trigger] self@.deck_map[k]).local_id != self@.parents[
                        pj as int
                    ].deck_id,
            decreases nm - a,
        {
            if crate::text::str_eq(
                self.deck_map[a].local_id.as_str(),
                self.parents[pj].deck_id.as_str(),
            ) {
                proof {
                    lemma_lookup_map_at(self@.deck_map, self@.parents[pj as int].deck_id, a as int);
                }
                return Option::Some(self.deck_map[a].remote_id);
            }
            a += 1;
        }
        proof {
            lemma_lookup_map_none(self@.deck_map, self@.parents[pj as int].deck_id);
        }
        self.parents[pj].deck_remote_id
    }

    /// Records that the current entry was created remotely under the
    /// given identifier; a deck's mapping becomes available to the cards
    /// still queued behind it in this same pass.
    pub fn record_success(&mut self, remote_id: i64)
        requires
            old(self)@.pos < old(self)@.items.len(),
        ensures
            final(self)@.items == old(self)@.items,
            final(self)@.parents == old(self)@.parents,
            final(self)@.pos == old(self)@.pos + 1,
            final(self)@.synced == old(self)@.synced.push(
                SyncedItemV {
                    queue_id: old(self)@.items[old(self)@.pos].id,
                    entity_id: old(self)@.items[old(self)@.pos].entity_id,
                    kind: old(self)@.items[old(self)@.pos].entity_type,
                    remote_id: remote_id,
                },
            ),
            final(self)@.deck_map == if old(self)@.items[old(self)@.pos].entity_type
                == EntityKind::Deck {
                old(self)@.deck_map.push(
                    DeckMapEntryV {
                        local_id: old(self)@.items[old(self)@.pos].entity_id,
                        remote_id: remote_id,
                    },
                )
            } else {
                old(self)@.deck_map
            },
    {
        let item = &self.items[self.pos];
        let is_deck = match item.entity_type {
            EntityKind::Deck => true,
            EntityKind::Card => false,
        };
        let s = SyncedItem {
            queue_id: item.id,
            entity_id: item.entity_id.clone(),
            kind: item.entity_type,
            remote_id,
        };
        if is_deck {
            let e = DeckMapEntry { local_id: item.entity_id.clone(), remote_id };
            let ghost dm = self@.deck_map;
            self.deck_map.push(e);
            proof {
                assert(self@.deck_map =~= dm.push(
                    DeckMapEntryV {
                        local_id: old(self)@.items[old(self)@.pos].entity_id,
                        remote_id: remote_id,
                    },
                ));
            }
        }
        let ghost sv = self@.synced;
        self.synced.push(s);
        proof {
            assert(self@.synced =~= sv.push(
                SyncedItemV {
                    queue_id: old(self)@.items[old(self)@.pos].id,
                    entity_id: old(self)@.items[old(self)@.pos].entity_id,
                    kind: old(self)@.items[old(self)@.pos].entity_type,
                    remote_id: remote_id,
                },
            ));
            assert(self.pos < self.items.len());
        }
        self.pos = self.pos + 1;
    }

    /// Passes over the current entry — a failed request or an
    /// unresolvable card — leaving it queued for a future pass.
    pub fn record_failure(&mut self)
        requires
            old(self)@.pos < old(self)@.items.len(),
        ensures
            final(self)@ == (DrainPassV { pos: old(self)@.pos + 1, ..old(self)@ }),
    {
        proof {
            assert(self.pos < self.items.len());
        }
        self.pos = self.pos + 1;
        proof {
            assert(self@ =~= (DrainPassV { pos: old(self)@.pos + 1, ..old(self)@ }));
        }
    }

    /// How many entries this pass has replayed successfully so far.
    pub fn synced_count(&self) -> (n: u64)
        ensures
            n == self@.synced.len(),
    {
        self.synced.len() as u64
    }

    /// Applies every recorded outcome to the store in one step — status
    /// to `Synced`, remote identifiers set, drained entries removed —
    /// and reports how many entries were replayed.
    pub fn finish(self, store: &mut Store, now: i64) -> (n: u64)
        requires
            old(store).wf(),
        ensures
            final(store).wf(),
            final(store)@ == apply_synced(old(store)@, self@.synced, now as int),
            n == self@.synced.len(),
    {
        let m = self.synced.len();
        let ghost items = self@.synced;
        let mut k: usize = 0;
        while k < m
            invariant
                old(store).wf(),
                store.wf(),
                m == self.synced.len(),
                items == self@.synced,
                k <= m,
                store@ == apply_synced(old(store)@, items.take(k as int), now as int),
            decreases m - k,
        {
            let it = &self.synced[k];
            proof {
                assert(items.take(k as int + 1).drop_last() =~= items.take(k as int));
                assert(items.take(k as int + 1).last() == items[k as int]);
            }
            store.apply_one_drain_result(
                it.kind,
                it.entity_id.as_str(),
                it.queue_id,
                it.remote_id,
                now,
            );
            k += 1;
        }
        proof {
            items.lemma_take_len();
        }
        m as u64
    }
}

} // verus!
