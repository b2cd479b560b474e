//! The entity store: an in-memory relational model of decks, cards, tags,
//! quizzes, questions, choices, attempts, sessions, users and the sync
//! queue, with the referential and sync-status invariants a relational
//! schema would enforce through primary keys, foreign keys and cascade
//! deletes.
use vstd::prelude::*;
use vstd::pervasive::VecAdditionalExecFns;
use vstd::string::StringSliceAdditionalSpecFns;

use crate::capability::{fresh_id, now_seconds};
use crate::grading::score_of;
use crate::models::{
    clone_opt_string, demoted, opt_str, queue_item_coherent, row_profile, AppError, Card,
    CardPayload, CardPayloadV, CardTag, CardTagLink, CardTagLinkV, CardTagV, CardV, Choice,
    ChoiceV, CreateCardRequest, CreateChoiceRequest, CreateQuestionRequest, CreateQuizRequest,
    CreateUserRequest, Deck, DeckPayload, DeckPayloadV, DeckStudyStats, DeckV, EntityKind,
    LocalUser, LocalUserV, Question, QuestionAnswer, QuestionResult, QuestionResultV, QuestionTag,
    QuestionTagLink, QuestionTagLinkV, QuestionTagV, QuestionType, QuestionV, QueueOp,
    QueuePayload, QueuePayloadV, Quiz, QuizAttempt, QuizAttemptV, QuizStats, QuizTag, QuizTagV,
    QuizV, StudySession, StudySessionV, SyncQueueItem, SyncQueueItemV, SyncStatus, Tag, TagV,
    UpdateCardRequest, UpdateQuestionRequest, UpdateQuizRequest, UserRow, UserRowV,
};
use crate::text::{seq_char_lt, str_eq, str_lt};

verus! {

// ============================================
// Ghost view of the whole store
// ============================================
#[verifier::ext_equal]
pub ghost struct StoreView {
    pub users: Seq<UserRowV>,
    pub active_user: Option<Seq<char>>,
    pub decks: Seq<DeckV>,
    pub cards: Seq<CardV>,
    pub tags: Seq<TagV>,
    pub card_tags: Seq<CardTagLinkV>,
    pub quizzes: Seq<QuizV>,
    pub questions: Seq<QuestionV>,
    pub choices: Seq<ChoiceV>,
    pub quiz_tags: Seq<QuizTagV>,
    pub question_tags: Seq<QuestionTagLinkV>,
    pub attempts: Seq<QuizAttemptV>,
    pub question_results: Seq<QuestionResultV>,
    pub sessions: Seq<StudySessionV>,
    pub queue: Seq<SyncQueueItemV>,
    pub next_queue_id: u64,
}

// ============================================
// Membership helpers
// ============================================
pub open spec fn has_deck(v: StoreView, id: Seq<char>) -> bool {
    exists|i: int| 0 <= i < v.decks.len() && v.decks[i].id == id
}

pub open spec fn has_card(v: StoreView, id: Seq<char>) -> bool {
    exists|i: int| 0 <= i < v.cards.len() && v.cards[i].id == id
}

pub open spec fn has_tag(v: StoreView, id: Seq<char>) -> bool {
    exists|i: int| 0 <= i < v.tags.len() && v.tags[i].id == id
}

/// Some tag of the named deck already carries this name. Tag names are
/// unique per deck, not globally.
pub open spec fn has_tag_named(v: StoreView, deck_id: Seq<char>, name: Seq<char>) -> bool {
    exists|i: int|
        0 <= i < v.tags.len() && (#[trigger] v.tags[i]).deck_id == deck_id && v.tags[i].name
            == name
}

pub open spec fn has_quiz(v: StoreView, id: Seq<char>) -> bool {
    exists|i: int| 0 <= i < v.quizzes.len() && v.quizzes[i].id == id
}

pub open spec fn has_question(v: StoreView, id: Seq<char>) -> bool {
    exists|i: int| 0 <= i < v.questions.len() && v.questions[i].id == id
}

pub open spec fn has_choice(v: StoreView, id: Seq<char>) -> bool {
    exists|i: int| 0 <= i < v.choices.len() && v.choices[i].id == id
}

pub open spec fn has_quiz_tag(v: StoreView, id: Seq<char>) -> bool {
    exists|i: int| 0 <= i < v.quiz_tags.len() && v.quiz_tags[i].id == id
}

pub open spec fn has_user(v: StoreView, id: Seq<char>) -> bool {
    exists|i: int| 0 <= i < v.users.len() && v.users[i].id == id
}

pub open spec fn has_attempt(v: StoreView, id: Seq<char>) -> bool {
    exists|i: int| 0 <= i < v.attempts.len() && v.attempts[i].id == id
}

pub open spec fn has_session(v: StoreView, id: Seq<char>) -> bool {
    exists|i: int| 0 <= i < v.sessions.len() && v.sessions[i].id == id
}

pub open spec fn has_card_tag_link(v: StoreView, card_id: Seq<char>, tag_id: Seq<char>) -> bool {
    exists|i: int|
        0 <= i < v.card_tags.len() && v.card_tags[i].card_id == card_id && v.card_tags[i].tag_id
            == tag_id
}

pub open spec fn has_question_tag_link(
    v: StoreView,
    question_id: Seq<char>,
    tag_id: Seq<char>,
) -> bool {
    exists|i: int|
        0 <= i < v.question_tags.len() && v.question_tags[i].question_id == question_id
            && v.question_tags[i].tag_id == tag_id
}

// ============================================
// Invariant
// ============================================
/// A deck never loses its remote linkage once established: `Synced` and
/// `PendingSync` decks carry a remote identifier, `LocalOnly` decks do
/// not, and no transition produces `Conflict`.
pub open spec fn deck_status_ok(d: DeckV) -> bool {
    ||| (d.sync_status == SyncStatus::LocalOnly && d.remote_id.is_none())
    ||| (d.sync_status == SyncStatus::Synced && d.remote_id.is_some())
    ||| (d.sync_status == SyncStatus::PendingSync && d.remote_id.is_some())
}

pub open spec fn inv_decks(v: StoreView) -> bool {
    &&& forall|i: int, j: int|
        0 <= i < j < v.decks.len() ==> v.decks[i].id != v.decks[j].id
    &&& forall|i: int|
        0 <= i < v.decks.len() ==> deck_status_ok(#[trigger] v.decks[i]) && v.decks[
            i
        ].card_count.is_none()
}

pub open spec fn inv_cards(v: StoreView) -> bool {
    &&& forall|i: int, j: int|
        0 <= i < j < v.cards.len() ==> v.cards[i].id != v.cards[j].id
    &&& forall|i: int|
        0 <= i < v.cards.len() ==> has_deck(v, (#[trigger] v.cards[i]).deck_id) && v.cards[
            i
        ].tags.len() == 0
}

pub open spec fn inv_tags(v: StoreView) -> bool {
    &&& forall|i: int, j: int| 0 <= i < j < v.tags.len() ==> v.tags[i].id != v.tags[j].id
    &&& forall|i: int| 0 <= i < v.tags.len() ==> has_deck(v, (#[trigger] v.tags[i]).deck_id)
    &&& forall|i: int, j: int|
        0 <= i < j < v.tags.len() ==> !(v.tags[i].deck_id == v.tags[j].deck_id && v.tags[i].name
            == v.tags[j].name)
}

pub open spec fn inv_card_tags(v: StoreView) -> bool {
    &&& forall|i: int|
        0 <= i < v.card_tags.len() ==> has_card(v, (#[trigger] v.card_tags[i]).card_id) && has_tag(
            v,
            v.card_tags[i].tag_id,
        )
    &&& forall|i: int, j: int|
        0 <= i < j < v.card_tags.len() ==> !(v.card_tags[i].card_id == v.card_tags[j].card_id
            && v.card_tags[i].tag_id == v.card_tags[j].tag_id)
}

pub open spec fn inv_quizzes(v: StoreView) -> bool {
    &&& forall|i: int, j: int|
        0 <= i < j < v.quizzes.len() ==> v.quizzes[i].id != v.quizzes[j].id
    &&& forall|i: int|
        0 <= i < v.quizzes.len() ==> (#[trigger] v.quizzes[i]).questions.len() == 0 && v.quizzes[
            i
        ].question_count.is_none()
}

pub open spec fn inv_questions(v: StoreView) -> bool {
    &&& forall|i: int, j: int|
        0 <= i < j < v.questions.len() ==> v.questions[i].id != v.questions[j].id
    &&& forall|i: int|
        0 <= i < v.questions.len() ==> has_quiz(v, (#[trigger] v.questions[i]).quiz_id)
            && v.questions[i].choices.len() == 0 && v.questions[i].tags.len() == 0
}

pub open spec fn inv_choices(v: StoreView) -> bool {
    &&& forall|i: int, j: int|
        0 <= i < j < v.choices.len() ==> v.choices[i].id != v.choices[j].id
    &&& forall|i: int|
        0 <= i < v.choices.len() ==> has_question(v, (#[trigger] v.choices[i]).question_id)
}

pub open spec fn inv_quiz_tags(v: StoreView) -> bool {
    &&& forall|i: int, j: int|
        0 <= i < j < v.quiz_tags.len() ==> v.quiz_tags[i].id != v.quiz_tags[j].id
    &&& forall|i: int|
        0 <= i < v.quiz_tags.len() ==> has_quiz(v, (#[trigger] v.quiz_tags[i]).quiz_id)
}

pub open spec fn inv_question_tags(v: StoreView) -> bool {
    &&& forall|i: int|
        0 <= i < v.question_tags.len() ==> has_question(
            v,
            (#[trigger] v.question_tags[i]).question_id,
        ) && has_quiz_tag(v, v.question_tags[i].tag_id)
    &&& forall|i: int, j: int|
        0 <= i < j < v.question_tags.len() ==> !(v.question_tags[i].question_id
            == v.question_tags[j].question_id && v.question_tags[i].tag_id
            == v.question_tags[j].tag_id)
}

pub open spec fn inv_users(v: StoreView) -> bool {
    &&& forall|i: int, j: int| 0 <= i < j < v.users.len() ==> v.users[i].id != v.users[j].id
    &&& match v.active_user {
        Option::Some(id) => has_user(v, id),
        Option::None => true,
    }
}

/// A completed attempt carries a non-negative duration, a tally no larger
/// than its question count, and the exact rounded score.
pub open spec fn attempt_completed_ok(a: QuizAttemptV) -> bool {
    a.completed_at.is_some() ==> {
        &&& a.duration_seconds.is_some()
        &&& a.duration_seconds.unwrap() >= 0
        &&& a.correct_answers <= a.total_questions
        &&& a.score_percentage == score_of(a.correct_answers as int, a.total_questions as int)
    }
}

pub open spec fn inv_attempts(v: StoreView) -> bool {
    &&& forall|i: int, j: int|
        0 <= i < j < v.attempts.len() ==> v.attempts[i].id != v.attempts[j].id
    &&& forall|i: int|
        0 <= i < v.attempts.len() ==> {
            &&& (#[trigger] v.attempts[i]).started_at >= 0
            &&& v.attempts[i].question_results.len() == 0
            &&& attempt_completed_ok(v.attempts[i])
        }
}

pub open spec fn inv_sessions(v: StoreView) -> bool {
    &&& forall|i: int, j: int|
        0 <= i < j < v.sessions.len() ==> v.sessions[i].id != v.sessions[j].id
    &&& forall|i: int|
        0 <= i < v.sessions.len() ==> {
            &&& (#[trigger] v.sessions[i]).started_at >= 0
            &&& (v.sessions[i].ended_at.is_some() ==> v.sessions[i].duration_seconds.is_some()
                && v.sessions[i].duration_seconds.unwrap() >= 0)
        }
}

pub open spec fn inv_queue(v: StoreView) -> bool {
    &&& forall|i: int| 0 <= i < v.queue.len() ==> queue_item_coherent(#[trigger] v.queue[i])
    &&& forall|i: int, j: int| 0 <= i < j < v.queue.len() ==> v.queue[i].id < v.queue[j].id
    &&& forall|i: int| 0 <= i < v.queue.len() ==> (#[trigger] v.queue[i]).id < v.next_queue_id
}

/// The store's full well-formedness invariant.
pub open spec fn inv(v: StoreView) -> bool {
    &&& inv_decks(v)
    &&& inv_cards(v)
    &&& inv_tags(v)
    &&& inv_card_tags(v)
    &&& inv_quizzes(v)
    &&& inv_questions(v)
    &&& inv_choices(v)
    &&& inv_quiz_tags(v)
    &&& inv_question_tags(v)
    &&& inv_users(v)
    &&& inv_attempts(v)
    &&& inv_sessions(v)
    &&& inv_queue(v)
}

pub open spec fn empty_store() -> StoreView {
    StoreView {
        users: Seq::empty(),
        active_user: Option::None,
        decks: Seq::empty(),
        cards: Seq::empty(),
        tags: Seq::empty(),
        card_tags: Seq::empty(),
        quizzes: Seq::empty(),
        questions: Seq::empty(),
        choices: Seq::empty(),
        quiz_tags: Seq::empty(),
        question_tags: Seq::empty(),
        attempts: Seq::empty(),
        question_results: Seq::empty(),
        sessions: Seq::empty(),
        queue: Seq::empty(),
        next_queue_id: 0,
    }
}

// ============================================
// Transition descriptions shared by the exact
// (identifier-supplied) and convenience forms
// ============================================
/// The queue entry that records a deck creation.
pub open spec fn deck_queue_entry(qid: u64, d: DeckV) -> SyncQueueItemV {
    SyncQueueItemV {
        id: qid,
        entity_type: EntityKind::Deck,
        entity_id: d.id,
        operation: QueueOp::Create,
        payload: QueuePayloadV::Deck(DeckPayloadV { name: d.name, description: d.description }),
        created_at: d.created_at,
    }
}

/// How a store changes when a deck is created offline: the deck is
/// appended with status `LocalOnly`, and a matching create entry joins
/// the sync queue.
pub open spec fn deck_created(
    pre: StoreView,
    post: StoreView,
    d: DeckV,
    name: Seq<char>,
    description: Option<Seq<char>>,
    shuffle_cards: bool,
) -> bool {
    &&& d.name == name
    &&& d.description == description
    &&& d.shuffle_cards == shuffle_cards
    &&& d.sync_status == SyncStatus::LocalOnly
    &&& d.remote_id.is_none()
    &&& d.last_synced_at.is_none()
    &&& d.remote_updated_at.is_none()
    &&& d.card_count.is_none()
    &&& d.updated_at == d.created_at
    &&& !has_deck(pre, d.id)
    &&& post == (StoreView {
        decks: pre.decks.push(d),
        queue: pre.queue.push(deck_queue_entry(pre.next_queue_id, d)),
        next_queue_id: ((pre.next_queue_id + 1) as u64),
        ..pre
    })
}

/// How a store changes when a deck is edited: name, description and
/// shuffle flag are replaced, `updated_at` is set, and a `Synced` deck is
/// demoted to `PendingSync`.
pub open spec fn deck_updated(
    pre: StoreView,
    post: StoreView,
    d: DeckV,
    i: int,
    name: Seq<char>,
    description: Option<Seq<char>>,
    shuffle_cards: bool,
) -> bool {
    &&& 0 <= i < pre.decks.len()
    &&& d == (DeckV {
        name: name,
        description: description,
        shuffle_cards: shuffle_cards,
        updated_at: d.updated_at,
        sync_status: demoted(pre.decks[i].sync_status),
        ..pre.decks[i]
    })
    &&& post == (StoreView { decks: pre.decks.update(i, d), ..pre })
}

// ============================================
// The demotion rule at store level
// ============================================
/// The store after the sync-status demotion that accompanies any local
/// mutation touching deck `id`: a `Synced` deck of that identifier
/// becomes `PendingSync` with its `updated_at` set; any other store is
/// unchanged.
pub open spec fn demote_decks(decks: Seq<DeckV>, id: Seq<char>, now: int) -> Seq<DeckV> {
    if exists|i: int|
        0 <= i < decks.len() && decks[i].id == id && decks[i].sync_status == SyncStatus::Synced {
        let i = choose|i: int|
            0 <= i < decks.len() && decks[i].id == id && decks[i].sync_status
                == SyncStatus::Synced;
        decks.update(
            i,
            DeckV { sync_status: SyncStatus::PendingSync, updated_at: now, ..decks[i] },
        )
    } else {
        decks
    }
}

pub open spec fn demote_deck(pre: StoreView, id: Seq<char>, now: int) -> StoreView {
    StoreView { decks: demote_decks(pre.decks, id, now), ..pre }
}

/// Mutating the children of a deck that is `Synced` leaves it
/// `PendingSync`; every other deck, and every other field of the deck,
/// is untouched.
pub proof fn lemma_demote_deck_sets_pending(pre: StoreView, id: Seq<char>, now: int, i: int)
    requires
        inv(pre),
        0 <= i < pre.decks.len(),
        pre.decks[i].id == id,
        pre.decks[i].sync_status == SyncStatus::Synced,
    ensures
        demote_deck(pre, id, now).decks[i].sync_status == SyncStatus::PendingSync,
        demote_deck(pre, id, now).decks[i].remote_id == pre.decks[i].remote_id,
        demote_deck(pre, id, now).decks[i].id == id,
{
    let j = choose|j: int|
        0 <= j < pre.decks.len() && pre.decks[j].id == id && pre.decks[j].sync_status
            == SyncStatus::Synced;
    assert(j == i);
}

/// Demotion is idempotent at store level: once a deck is `PendingSync`,
/// repeating the mutation changes nothing more.
pub proof fn lemma_demote_deck_idempotent(pre: StoreView, id: Seq<char>, n1: int, n2: int)
    requires
        inv(pre),
    ensures
        demote_deck(demote_deck(pre, id, n1), id, n2) == demote_deck(pre, id, n1),
{
    let mid = demote_deck(pre, id, n1);
    if exists|i: int|
        0 <= i < pre.decks.len() && pre.decks[i].id == id && pre.decks[i].sync_status
            == SyncStatus::Synced {
        let i = choose|i: int|
            0 <= i < pre.decks.len() && pre.decks[i].id == id && pre.decks[i].sync_status
                == SyncStatus::Synced;
        assert forall|j: int|
            0 <= j < mid.decks.len() implies !(mid.decks[j].id == id && mid.decks[j].sync_status
            == SyncStatus::Synced) by {
            if j != i && mid.decks[j].id == id {
                assert(pre.decks[j].id == pre.decks[i].id);
            }
        }
    } else {
        assert(mid == pre);
    }
}

// ============================================
// The deck listing's order
// ============================================
/// A deck as listings return it: its live card count filled in.
pub open spec fn counted_deck(v: StoreView, d: DeckV) -> DeckV {
    DeckV { card_count: Option::Some(cards_of_deck(v, d.id).len() as u64), ..d }
}

/// Insertion step of the deck listing's order: most recently updated
/// first; an equal update time keeps store order.
pub open spec fn insert_by_updated(d: DeckV, s: Seq<DeckV>) -> Seq<DeckV>
    decreases s.len(),
{
    if s.len() == 0 {
        seq![d]
    } else if d.updated_at > s[0].updated_at {
        seq![d] + s
    } else {
        seq![s[0]] + insert_by_updated(d, s.drop_first())
    }
}

/// Stable sort of decks by update time, newest first.
pub open spec fn sort_by_updated(s: Seq<DeckV>) -> Seq<DeckV>
    decreases s.len(),
{
    if s.len() == 0 {
        Seq::empty()
    } else {
        insert_by_updated(s.last(), sort_by_updated(s.drop_last()))
    }
}

pub proof fn lemma_insert_by_updated_len(d: DeckV, s: Seq<DeckV>)
    ensures
        insert_by_updated(d, s).len() == s.len() + 1,
    decreases s.len(),
{
    if s.len() > 0 && !(d.updated_at > s[0].updated_at) {
        lemma_insert_by_updated_len(d, s.drop_first());
    }
}

pub proof fn lemma_sort_by_updated_len(s: Seq<DeckV>)
    ensures
        sort_by_updated(s).len() == s.len(),
    decreases s.len(),
{
    if s.len() > 0 {
        lemma_sort_by_updated_len(s.drop_last());
        lemma_insert_by_updated_len(s.last(), sort_by_updated(s.drop_last()));
    }
}

/// Skipping a sorted prefix whose update times are not below the
/// inserted deck's commutes with insertion.
proof fn lemma_insert_by_updated_skip(d: DeckV, s: Seq<DeckV>, idx: int)
    requires
        0 <= idx <= s.len(),
        forall|k: int| 0 <= k < idx ==> !(d.updated_at > (#[trigger] s[k]).updated_at),
    ensures
        insert_by_updated(d, s) == s.take(idx) + insert_by_updated(d, s.skip(idx)),
    decreases idx,
{
    if idx == 0 {
        assert(s.skip(0) == s);
        assert(s.take(0) + insert_by_updated(d, s) =~= insert_by_updated(d, s));
    } else {
        assert(s.len() > 0);
        assert(!(d.updated_at > s[0].updated_at));
        lemma_insert_by_updated_skip(d, s.drop_first(), idx - 1);
        assert(s.drop_first().take(idx - 1) =~= s.take(idx).drop_first());
        assert(s.drop_first().skip(idx - 1) =~= s.skip(idx));
        assert(seq![s[0]] + (s.drop_first().take(idx - 1) + insert_by_updated(
            d,
            s.drop_first().skip(idx - 1),
        )) =~= s.take(idx) + insert_by_updated(d, s.skip(idx)));
    }
}

/// Inserts one counted deck into a listing already sorted newest
/// update first.
fn insert_deck_sorted(r: &mut Vec<Deck>, d: Deck)
    ensures
        final(r)@.map_values(|x: Deck| x@) == insert_by_updated(
            d@,
            old(r)@.map_values(|x: Deck| x@),
        ),
{
    let ghost s = r@.map_values(|x: Deck| x@);
    let n = r.len();
    let mut idx: usize = 0;
    while idx < n && !(d.updated_at > r[idx].updated_at)
        invariant
            n == r.len(),
            s == r@.map_values(|x: Deck| x@),
            idx <= n,
            forall|k: int| 0 <= k < idx ==> !(d@.updated_at > (#[trigger] s[k]).updated_at),
        decreases n - idx,
    {
        idx += 1;
    }
    proof {
        lemma_insert_by_updated_skip(d@, s, idx as int);
        if idx < n {
            assert(s.skip(idx as int)[0] == s[idx as int]);
            assert(insert_by_updated(d@, s.skip(idx as int)) == seq![d@] + s.skip(idx as int));
        } else {
            assert(s.skip(idx as int).len() == 0);
        }
    }
    r.insert(idx, d);
    proof {
        assert(r@.map_values(|x: Deck| x@) =~= s.take(idx as int) + insert_by_updated(
            d@,
            s.skip(idx as int),
        ));
    }
}

// ============================================
// Cascade-delete predicates
// ============================================
/// Keeps the decks other than the deleted one.
pub open spec fn deck_not(id: Seq<char>) -> spec_fn(DeckV) -> bool {
    |d: DeckV| d.id != id
}

/// Keeps the cards of other decks.
pub open spec fn card_not_of_deck(del: Seq<char>) -> spec_fn(CardV) -> bool {
    |c: CardV| c.deck_id != del
}

/// Keeps the tags of other decks.
pub open spec fn tag_not_of_deck(del: Seq<char>) -> spec_fn(TagV) -> bool {
    |t: TagV| t.deck_id != del
}

/// A card outlives the deletion of deck `del`.
pub open spec fn card_survives_deck_delete(pre: StoreView, cid: Seq<char>, del: Seq<char>) -> bool {
    exists|i: int| 0 <= i < pre.cards.len() && pre.cards[i].id == cid && pre.cards[i].deck_id != del
}

/// A tag outlives the deletion of deck `del`.
pub open spec fn tag_survives_deck_delete(pre: StoreView, tid: Seq<char>, del: Seq<char>) -> bool {
    exists|i: int| 0 <= i < pre.tags.len() && pre.tags[i].id == tid && pre.tags[i].deck_id != del
}

/// Keeps the card/tag links whose two ends both survive the deletion.
pub open spec fn link_survives_deck_delete(pre: StoreView, del: Seq<char>) -> spec_fn(
    CardTagLinkV,
) -> bool {
    |l: CardTagLinkV| card_survives_deck_delete(pre, l.card_id, del) && tag_survives_deck_delete(
        pre,
        l.tag_id,
        del,
    )
}

/// The cards of one deck, in store order.
pub open spec fn card_of_deck(id: Seq<char>) -> spec_fn(CardV) -> bool {
    |c: CardV| c.deck_id == id
}

pub open spec fn cards_of_deck(v: StoreView, id: Seq<char>) -> Seq<CardV> {
    v.cards.filter(card_of_deck(id))
}

// ============================================
// Join and request helpers
// ============================================
/// A content type request, with the store's default applied.
pub open spec fn type_or_default(o: Option<Seq<char>>) -> Seq<char> {
    match o {
        Option::Some(s) => s,
        Option::None => "TEXT"@,
    }
}

/// The links attaching tags to one card, in store order.
/// A card as listings return it: its tags joined in.
pub open spec fn populated_card(v: StoreView, c: CardV) -> CardV {
    CardV { tags: tags_of_card(v, c.id), ..c }
}

/// Insertion step of the card listing's order: earliest created first;
/// an equal creation time keeps store order.
pub open spec fn insert_card_by_created(c: CardV, s: Seq<CardV>) -> Seq<CardV>
    decreases s.len(),
{
    if s.len() == 0 {
        seq![c]
    } else if c.created_at < s[0].created_at {
        seq![c] + s
    } else {
        seq![s[0]] + insert_card_by_created(c, s.drop_first())
    }
}

/// Stable sort of cards by creation time, oldest first.
pub open spec fn sort_cards_by_created(s: Seq<CardV>) -> Seq<CardV>
    decreases s.len(),
{
    if s.len() == 0 {
        Seq::empty()
    } else {
        insert_card_by_created(s.last(), sort_cards_by_created(s.drop_last()))
    }
}

pub proof fn lemma_insert_card_by_created_len(c: CardV, s: Seq<CardV>)
    ensures
        insert_card_by_created(c, s).len() == s.len() + 1,
    decreases s.len(),
{
    if s.len() > 0 && !(c.created_at < s[0].created_at) {
        lemma_insert_card_by_created_len(c, s.drop_first());
    }
}

pub proof fn lemma_sort_cards_by_created_len(s: Seq<CardV>)
    ensures
        sort_cards_by_created(s).len() == s.len(),
    decreases s.len(),
{
    if s.len() > 0 {
        lemma_sort_cards_by_created_len(s.drop_last());
        lemma_insert_card_by_created_len(s.last(), sort_cards_by_created(s.drop_last()));
    }
}

/// Skipping a sorted prefix whose creation times do not exceed the
/// inserted card's commutes with insertion.
proof fn lemma_insert_card_by_created_skip(c: CardV, s: Seq<CardV>, idx: int)
    requires
        0 <= idx <= s.len(),
        forall|k: int| 0 <= k < idx ==> !(c.created_at < (#[trigger] s[k]).created_at),
    ensures
        insert_card_by_created(c, s) == s.take(idx) + insert_card_by_created(c, s.skip(idx)),
    decreases idx,
{
    if idx == 0 {
        assert(s.skip(0) == s);
        assert(s.take(0) + insert_card_by_created(c, s) =~= insert_card_by_created(c, s));
    } else {
        assert(s.len() > 0);
        assert(!(c.created_at < s[0].created_at));
        lemma_insert_card_by_created_skip(c, s.drop_first(), idx - 1);
        assert(s.drop_first().take(idx - 1) =~= s.take(idx).drop_first());
        assert(s.drop_first().skip(idx - 1) =~= s.skip(idx));
        assert(seq![s[0]] + (s.drop_first().take(idx - 1) + insert_card_by_created(
            c,
            s.drop_first().skip(idx - 1),
        )) =~= s.take(idx) + insert_card_by_created(c, s.skip(idx)));
    }
}

/// The cards of one deck as listings and exports see them: tags joined
/// in, earliest created first.
pub open spec fn deck_cards_view(v: StoreView, id: Seq<char>) -> Seq<CardV> {
    sort_cards_by_created(cards_of_deck(v, id).map_values(|c: CardV| populated_card(v, c)))
}

/// Inserts one populated card into a listing already sorted oldest
/// creation first.
fn insert_card_sorted(r: &mut Vec<Card>, c: Card)
    ensures
        final(r)@.map_values(|x: Card| x@) == insert_card_by_created(
            c@,
            old(r)@.map_values(|x: Card| x@),
        ),
{
    let ghost s = r@.map_values(|x: Card| x@);
    let n = r.len();
    let mut idx: usize = 0;
    while idx < n && !(c.created_at < r[idx].created_at)
        invariant
            n == r.len(),
            s == r@.map_values(|x: Card| x@),
            idx <= n,
            forall|k: int| 0 <= k < idx ==> !(c@.created_at < (#[trigger] s[k]).created_at),
        decreases n - idx,
    {
        idx += 1;
    }
    proof {
        lemma_insert_card_by_created_skip(c@, s, idx as int);
        if idx < n {
            assert(s.skip(idx as int)[0] == s[idx as int]);
            assert(insert_card_by_created(c@, s.skip(idx as int)) == seq![c@] + s.skip(
                idx as int,
            ));
        } else {
            assert(s.skip(idx as int).len() == 0);
        }
    }
    r.insert(idx, c);
    proof {
        assert(r@.map_values(|x: Card| x@) =~= s.take(idx as int) + insert_card_by_created(
            c@,
            s.skip(idx as int),
        ));
    }
}

pub open spec fn link_of_card(cid: Seq<char>) -> spec_fn(CardTagLinkV) -> bool {
    |l: CardTagLinkV| l.card_id == cid
}

/// The name of the tag with the given identifier (well defined whenever
/// the tag exists, since identifiers are unique).
pub open spec fn tag_name_in(v: StoreView, tid: Seq<char>) -> Seq<char> {
    v.tags[choose|i: int| 0 <= i < v.tags.len() && v.tags[i].id == tid].name
}

pub open spec fn card_tag_of_link(v: StoreView) -> spec_fn(CardTagLinkV) -> CardTagV {
    |l: CardTagLinkV| CardTagV { id: l.tag_id, name: tag_name_in(v, l.tag_id) }
}

/// The tags of one card as callers see them: identifier and name, in the
/// store order of the card's links.
pub open spec fn tags_of_card(v: StoreView, cid: Seq<char>) -> Seq<CardTagV> {
    v.card_tags.filter(link_of_card(cid)).map_values(card_tag_of_link(v))
}

/// The stored row behind a returned card: same fields, no derived tags.
pub open spec fn stored_card(c: CardV) -> CardV {
    CardV { tags: Seq::empty(), ..c }
}

/// The queue entry that records a card creation.
pub open spec fn card_queue_entry(qid: u64, c: CardV) -> SyncQueueItemV {
    SyncQueueItemV {
        id: qid,
        entity_type: EntityKind::Card,
        entity_id: c.id,
        operation: QueueOp::Create,
        payload: QueuePayloadV::Card(
            CardPayloadV {
                front: c.front,
                back: c.back,
                front_type: c.front_type,
                back_type: c.back_type,
                front_language: c.front_language,
                back_language: c.back_language,
                notes: c.notes,
            },
        ),
        created_at: c.created_at,
    }
}

/// The returned card's content agrees with the creation request.
pub open spec fn card_matches_request(c: CardV, deck_id: Seq<char>, req: CreateCardRequest) -> bool {
    &&& c.deck_id == deck_id
    &&& c.front == req.front@
    &&& c.front_type == type_or_default(opt_str(req.front_type))
    &&& c.front_language == opt_str(req.front_language)
    &&& c.back == req.back@
    &&& c.back_type == type_or_default(opt_str(req.back_type))
    &&& c.back_language == opt_str(req.back_language)
    &&& c.notes == opt_str(req.notes)
}

/// How a store changes when a card is created: the card row is appended,
/// a create entry joins the queue, and the owning deck is demoted.
pub open spec fn card_created(
    pre: StoreView,
    post: StoreView,
    c: CardV,
    deck_id: Seq<char>,
    req: CreateCardRequest,
) -> bool {
    &&& card_matches_request(c, deck_id, req)
    &&& c.remote_id.is_none()
    &&& c.updated_at == c.created_at
    &&& c.tags.len() == 0
    &&& !has_card(pre, c.id)
    &&& post == (StoreView {
        cards: pre.cards.push(c),
        decks: demote_deck(pre, deck_id, c.created_at).decks,
        queue: pre.queue.push(card_queue_entry(pre.next_queue_id, c)),
        next_queue_id: ((pre.next_queue_id + 1) as u64),
        ..pre
    })
}

/// How a store changes when a card is edited: content fields are
/// replaced, `updated_at` is set, identity and creation data are kept,
/// and the owning deck is demoted.
pub open spec fn card_updated(
    pre: StoreView,
    post: StoreView,
    c: CardV,
    i: int,
    id: Seq<char>,
    deck_id: Seq<char>,
    req: UpdateCardRequest,
    now: int,
) -> bool {
    &&& 0 <= i < pre.cards.len()
    &&& pre.cards[i].id == id
    &&& pre.cards[i].deck_id == deck_id
    &&& c == (CardV {
        front: req.front@,
        front_type: type_or_default(opt_str(req.front_type)),
        front_language: opt_str(req.front_language),
        back: req.back@,
        back_type: type_or_default(opt_str(req.back_type)),
        back_language: opt_str(req.back_language),
        notes: opt_str(req.notes),
        updated_at: now,
        tags: c.tags,
        ..pre.cards[i]
    })
    &&& c.tags == tags_of_card(pre, id)
    &&& post == (StoreView {
        cards: pre.cards.update(i, stored_card(c)),
        decks: demote_decks(pre.decks, deck_id, now),
        ..pre
    })
}

/// Keeps the cards other than the one deleted by identifier and deck.
pub open spec fn card_not_matching(id: Seq<char>, deck_id: Seq<char>) -> spec_fn(CardV) -> bool {
    |c: CardV| !(c.id == id && c.deck_id == deck_id)
}

/// A card outlives the deletion of card (`id`, `deck_id`).
pub open spec fn card_survives_card_delete(
    pre: StoreView,
    cid: Seq<char>,
    id: Seq<char>,
    deck_id: Seq<char>,
) -> bool {
    exists|i: int|
        0 <= i < pre.cards.len() && pre.cards[i].id == cid && !(pre.cards[i].id == id
            && pre.cards[i].deck_id == deck_id)
}

pub open spec fn link_survives_card_delete(
    pre: StoreView,
    id: Seq<char>,
    deck_id: Seq<char>,
) -> spec_fn(CardTagLinkV) -> bool {
    |l: CardTagLinkV| card_survives_card_delete(pre, l.card_id, id, deck_id)
}

/// Keeps the tags other than the one deleted by identifier and deck.
pub open spec fn tag_not_matching(id: Seq<char>, deck_id: Seq<char>) -> spec_fn(TagV) -> bool {
    |t: TagV| !(t.id == id && t.deck_id == deck_id)
}

/// A tag outlives the deletion of tag (`id`, `deck_id`).
pub open spec fn tag_survives_tag_delete(
    pre: StoreView,
    tid: Seq<char>,
    id: Seq<char>,
    deck_id: Seq<char>,
) -> bool {
    exists|i: int|
        0 <= i < pre.tags.len() && pre.tags[i].id == tid && !(pre.tags[i].id == id
            && pre.tags[i].deck_id == deck_id)
}

pub open spec fn link_survives_tag_delete(
    pre: StoreView,
    id: Seq<char>,
    deck_id: Seq<char>,
) -> spec_fn(CardTagLinkV) -> bool {
    |l: CardTagLinkV| tag_survives_tag_delete(pre, l.tag_id, id, deck_id)
}

/// Keeps the links other than one card/tag pair.
pub open spec fn link_not_pair(card_id: Seq<char>, tag_id: Seq<char>) -> spec_fn(
    CardTagLinkV,
) -> bool {
    |l: CardTagLinkV| !(l.card_id == card_id && l.tag_id == tag_id)
}

/// The tags scoped to one deck, in store order.
pub open spec fn tag_of_deck(id: Seq<char>) -> spec_fn(TagV) -> bool {
    |t: TagV| t.deck_id == id
}

pub open spec fn tags_of_deck(v: StoreView, id: Seq<char>) -> Seq<TagV> {
    v.tags.filter(tag_of_deck(id))
}

/// Insertion step of the tag listing's order: names ascending; an
/// equal name keeps store order.
pub open spec fn insert_by_name(t: TagV, s: Seq<TagV>) -> Seq<TagV>
    decreases s.len(),
{
    if s.len() == 0 {
        seq![t]
    } else if seq_char_lt(t.name, s[0].name) {
        seq![t] + s
    } else {
        seq![s[0]] + insert_by_name(t, s.drop_first())
    }
}

/// Stable sort of tags by name, ascending.
pub open spec fn sort_by_name(s: Seq<TagV>) -> Seq<TagV>
    decreases s.len(),
{
    if s.len() == 0 {
        Seq::empty()
    } else {
        insert_by_name(s.last(), sort_by_name(s.drop_last()))
    }
}

pub proof fn lemma_insert_by_name_len(t: TagV, s: Seq<TagV>)
    ensures
        insert_by_name(t, s).len() == s.len() + 1,
    decreases s.len(),
{
    if s.len() > 0 && !seq_char_lt(t.name, s[0].name) {
        lemma_insert_by_name_len(t, s.drop_first());
    }
}

pub proof fn lemma_sort_by_name_len(s: Seq<TagV>)
    ensures
        sort_by_name(s).len() == s.len(),
    decreases s.len(),
{
    if s.len() > 0 {
        lemma_sort_by_name_len(s.drop_last());
        lemma_insert_by_name_len(s.last(), sort_by_name(s.drop_last()));
    }
}

/// Skipping a sorted prefix whose names do not exceed the inserted
/// tag's commutes with insertion.
proof fn lemma_insert_by_name_skip(t: TagV, s: Seq<TagV>, idx: int)
    requires
        0 <= idx <= s.len(),
        forall|k: int| 0 <= k < idx ==> !seq_char_lt(t.name, (#[trigger] s[k]).name),
    ensures
        insert_by_name(t, s) == s.take(idx) + insert_by_name(t, s.skip(idx)),
    decreases idx,
{
    if idx == 0 {
        assert(s.skip(0) == s);
        assert(s.take(0) + insert_by_name(t, s) =~= insert_by_name(t, s));
    } else {
        assert(s.len() > 0);
        assert(!seq_char_lt(t.name, s[0].name));
        lemma_insert_by_name_skip(t, s.drop_first(), idx - 1);
        assert(s.drop_first().take(idx - 1) =~= s.take(idx).drop_first());
        assert(s.drop_first().skip(idx - 1) =~= s.skip(idx));
        assert(seq![s[0]] + (s.drop_first().take(idx - 1) + insert_by_name(
            t,
            s.drop_first().skip(idx - 1),
        )) =~= s.take(idx) + insert_by_name(t, s.skip(idx)));
    }
}

/// Inserts one tag into a listing already sorted by name.
fn insert_tag_sorted(r: &mut Vec<Tag>, t: Tag)
    ensures
        final(r)@.map_values(|x: Tag| x@) == insert_by_name(t@, old(r)@.map_values(|x: Tag| x@)),
{
    let ghost s = r@.map_values(|x: Tag| x@);
    let n = r.len();
    let mut idx: usize = 0;
    while idx < n && !str_lt(t.name.as_str(), r[idx].name.as_str())
        invariant
            n == r.len(),
            s == r@.map_values(|x: Tag| x@),
            idx <= n,
            forall|k: int| 0 <= k < idx ==> !seq_char_lt(t@.name, (#[trigger] s[k]).name),
        decreases n - idx,
    {
        idx += 1;
    }
    proof {
        lemma_insert_by_name_skip(t@, s, idx as int);
        if idx < n {
            assert(s.skip(idx as int)[0] == s[idx as int]);
            assert(insert_by_name(t@, s.skip(idx as int)) == seq![t@] + s.skip(idx as int));
        } else {
            assert(s.skip(idx as int).len() == 0);
        }
    }
    r.insert(idx, t);
    proof {
        assert(r@.map_values(|x: Tag| x@) =~= s.take(idx as int) + insert_by_name(
            t@,
            s.skip(idx as int),
        ));
    }
}

/// How a store changes when a tag is created: the tag row is appended
/// and the owning deck is demoted. The name was not yet in use within
/// the deck. Tags are not queued for sync.
pub open spec fn tag_created(
    pre: StoreView,
    post: StoreView,
    t: TagV,
    deck_id: Seq<char>,
    name: Seq<char>,
    now: int,
) -> bool {
    &&& t.deck_id == deck_id
    &&& t.name == name
    &&& t.remote_id.is_none()
    &&& !has_tag(pre, t.id)
    &&& !has_tag_named(pre, deck_id, name)
    &&& post == (StoreView {
        tags: pre.tags.push(t),
        decks: demote_decks(pre.decks, deck_id, now),
        ..pre
    })
}

// ============================================
// Quiz-side helpers
// ============================================
pub open spec fn question_of_quiz(qid: Seq<char>) -> spec_fn(QuestionV) -> bool {
    |q: QuestionV| q.quiz_id == qid
}

pub open spec fn questions_of_quiz(v: StoreView, qid: Seq<char>) -> Seq<QuestionV> {
    v.questions.filter(question_of_quiz(qid))
}

pub open spec fn choice_of_question(qid: Seq<char>) -> spec_fn(ChoiceV) -> bool {
    |c: ChoiceV| c.question_id == qid
}

pub open spec fn choices_of_question(v: StoreView, qid: Seq<char>) -> Seq<ChoiceV> {
    v.choices.filter(choice_of_question(qid))
}

pub open spec fn qlink_of_question(qid: Seq<char>) -> spec_fn(QuestionTagLinkV) -> bool {
    |l: QuestionTagLinkV| l.question_id == qid
}

/// The name of the quiz tag with the given identifier.
pub open spec fn quiz_tag_name_in(v: StoreView, tid: Seq<char>) -> Seq<char> {
    v.quiz_tags[choose|i: int| 0 <= i < v.quiz_tags.len() && v.quiz_tags[i].id == tid].name
}

pub open spec fn question_tag_of_link(v: StoreView) -> spec_fn(QuestionTagLinkV) -> QuestionTagV {
    |l: QuestionTagLinkV| QuestionTagV { id: l.tag_id, name: quiz_tag_name_in(v, l.tag_id) }
}

/// The tags of one question as callers see them.
pub open spec fn tags_of_question(v: StoreView, qid: Seq<char>) -> Seq<QuestionTagV> {
    v.question_tags.filter(qlink_of_question(qid)).map_values(question_tag_of_link(v))
}

/// A question row dressed for callers: choices and tags joined in.
pub open spec fn populated_question(v: StoreView, q: QuestionV) -> QuestionV {
    QuestionV { choices: choices_of_question(v, q.id), tags: tags_of_question(v, q.id), ..q }
}

/// The stored row behind a returned question.
pub open spec fn stored_question(q: QuestionV) -> QuestionV {
    QuestionV { choices: Seq::empty(), tags: Seq::empty(), ..q }
}

// ============================================
// Position order
// ============================================
/// Inserts a question into a position-sorted sequence, after every
/// question whose position is not greater: the order is stable for
/// equal positions.
pub open spec fn insert_by_position(q: QuestionV, s: Seq<QuestionV>) -> Seq<QuestionV>
    decreases s.len(),
{
    if s.len() == 0 {
        seq![q]
    } else if q.position < s[0].position {
        seq![q] + s
    } else {
        seq![s[0]] + insert_by_position(q, s.drop_first())
    }
}

/// Stable sort of questions by their explicit position.
pub open spec fn sort_by_position(s: Seq<QuestionV>) -> Seq<QuestionV>
    decreases s.len(),
{
    if s.len() == 0 {
        Seq::empty()
    } else {
        insert_by_position(s.last(), sort_by_position(s.drop_last()))
    }
}

pub proof fn lemma_insert_by_position_len(q: QuestionV, s: Seq<QuestionV>)
    ensures
        insert_by_position(q, s).len() == s.len() + 1,
    decreases s.len(),
{
    if s.len() > 0 && !(q.position < s[0].position) {
        lemma_insert_by_position_len(q, s.drop_first());
    }
}

pub proof fn lemma_sort_by_position_len(s: Seq<QuestionV>)
    ensures
        sort_by_position(s).len() == s.len(),
    decreases s.len(),
{
    if s.len() > 0 {
        lemma_sort_by_position_len(s.drop_last());
        lemma_insert_by_position_len(s.last(), sort_by_position(s.drop_last()));
    }
}

/// Skipping a sorted prefix whose positions do not exceed the inserted
/// question's commutes with insertion.
proof fn lemma_insert_by_position_skip(q: QuestionV, s: Seq<QuestionV>, idx: int)
    requires
        0 <= idx <= s.len(),
        forall|k: int| 0 <= k < idx ==> !(q.position < (#[trigger] s[k]).position),
    ensures
        insert_by_position(q, s) == s.take(idx) + insert_by_position(q, s.skip(idx)),
    decreases idx,
{
    if idx == 0 {
        assert(s.skip(0) == s);
        assert(s.take(0) + insert_by_position(q, s) =~= insert_by_position(q, s));
    } else {
        assert(s.len() > 0);
        assert(!(q.position < s[0].position));
        lemma_insert_by_position_skip(q, s.drop_first(), idx - 1);
        assert(s.drop_first().take(idx - 1) =~= s.take(idx).drop_first());
        assert(s.drop_first().skip(idx - 1) =~= s.skip(idx));
        assert(seq![s[0]] + (s.drop_first().take(idx - 1) + insert_by_position(
            q,
            s.drop_first().skip(idx - 1),
        )) =~= s.take(idx) + insert_by_position(q, s.skip(idx)));
    }
}

// ============================================
// The store
// ============================================
pub struct Store {
    users: Vec<UserRow>,
    active_user: Option<String>,
    decks: Vec<Deck>,
    cards: Vec<Card>,
    tags: Vec<Tag>,
    card_tags: Vec<CardTagLink>,
    quizzes: Vec<Quiz>,
    questions: Vec<Question>,
    choices: Vec<Choice>,
    quiz_tags: Vec<QuizTag>,
    question_tags: Vec<QuestionTagLink>,
    attempts: Vec<QuizAttempt>,
    question_results: Vec<QuestionResult>,
    sessions: Vec<StudySession>,
    queue: Vec<SyncQueueItem>,
    next_queue_id: u64,
}

impl View for Store {
    type V = StoreView;

    closed spec fn view(&self) -> StoreView {
        StoreView {
            users: self.users@.map_values(|x: UserRow| x@),
            active_user: opt_str(self.active_user),
            decks: self.decks@.map_values(|x: Deck| x@),
            cards: self.cards@.map_values(|x: Card| x@),
            tags: self.tags@.map_values(|x: Tag| x@),
            card_tags: self.card_tags@.map_values(|x: CardTagLink| x@),
            quizzes: self.quizzes@.map_values(|x: Quiz| x@),
            questions: self.questions@.map_values(|x: Question| x@),
            choices: self.choices@.map_values(|x: Choice| x@),
            quiz_tags: self.quiz_tags@.map_values(|x: QuizTag| x@),
            question_tags: self.question_tags@.map_values(|x: QuestionTagLink| x@),
            attempts: self.attempts@.map_values(|x: QuizAttempt| x@),
            question_results: self.question_results@.map_values(|x: QuestionResult| x@),
            sessions: self.sessions@.map_values(|x: StudySession| x@),
            queue: self.queue@.map_values(|x: SyncQueueItem| x@),
            next_queue_id: self.next_queue_id,
        }
    }
}

impl Store {
    /// Well-formedness: the store satisfies the relational invariant.
    pub open spec fn wf(&self) -> bool {
        inv(self@)
    }

    /// An empty store.
    pub fn new() -> (s: Store)
        ensures
            s.wf(),
            s@ == empty_store(),
    {
        let s = Store {
            users: Vec::new(),
            active_user: Option::None,
            decks: Vec::new(),
            cards: Vec::new(),
            tags: Vec::new(),
            card_tags: Vec::new(),
            quizzes: Vec::new(),
            questions: Vec::new(),
            choices: Vec::new(),
            quiz_tags: Vec::new(),
            question_tags: Vec::new(),
            attempts: Vec::new(),
            question_results: Vec::new(),
            sessions: Vec::new(),
            queue: Vec::new(),
            next_queue_id: 0,
        };
        proof {
            assert(s@ =~= empty_store());
        }
        s
    }

    // ============================================
    // Lookup helpers
    // ============================================
    fn find_deck(&self, id: &str) -> (r: Option<usize>)
        ensures
            match r {
                Option::Some(i) => i < self@.decks.len() && self@.decks[i as int].id == id@,
                Option::None => !has_deck(self@, id@),
            },
    {
        let n = self.decks.len();
        let mut i: usize = 0;
        while i < n
            invariant
                n == self.decks.len(),
                i <= n,
                forall|j: int| 0 <= j < i ==> self@.decks[j].id != id@,
            decreases n - i,
        {
            if str_eq(self.decks[i].id.as_str(), id) {
                return Option::Some(i);
            }
            i += 1;
        }
        Option::None
    }

    fn find_card(&self, id: &str) -> (r: Option<usize>)
        ensures
            match r {
                Option::Some(i) => i < self@.cards.len() && self@.cards[i as int].id == id@,
                Option::None => !has_card(self@, id@),
            },
    {
        let n = self.cards.len();
        let mut i: usize = 0;
        while i < n
            invariant
                n == self.cards.len(),
                i <= n,
                forall|j: int| 0 <= j < i ==> self@.cards[j].id != id@,
            decreases n - i,
        {
            if str_eq(self.cards[i].id.as_str(), id) {
                return Option::Some(i);
            }
            i += 1;
        }
        Option::None
    }

    fn find_tag(&self, id: &str) -> (r: Option<usize>)
        ensures
            match r {
                Option::Some(i) => i < self@.tags.len() && self@.tags[i as int].id == id@,
                Option::None => !has_tag(self@, id@),
            },
    {
        let n = self.tags.len();
        let mut i: usize = 0;
        while i < n
            invariant
                n == self.tags.len(),
                i <= n,
                forall|j: int| 0 <= j < i ==> self@.tags[j].id != id@,
            decreases n - i,
        {
            if str_eq(self.tags[i].id.as_str(), id) {
                return Option::Some(i);
            }
            i += 1;
        }
        Option::None
    }

    // ============================================
    // Deck operations
    // ============================================
    /// Creates a deck offline under a caller-supplied identifier and
    /// creation time. Succeeds exactly when the identifier is free and
    /// the queue has room for one more entry.
    pub fn create_deck_with_id(
        &mut self,
        id: String,
        now: i64,
        name: &str,
        description: Option<&str>,
        shuffle_cards: bool,
    ) -> (r: Result<Deck, AppError>)
        requires
            old(self).wf(),
        ensures
            final(self).wf(),
            r matches Ok(d) ==> deck_created(
                old(self)@,
                final(self)@,
                d@,
                name@,
                opt_str_ref(description),
                shuffle_cards,
            ) && d@.id == id@ && d@.created_at == now as int,
            r is Ok <==> (!has_deck(old(self)@, id@) && old(self)@.next_queue_id < u64::MAX),
            r is Err ==> final(self)@ == old(self)@ && r == Result::<Deck, AppError>::Err(
                AppError::Store,
            ),
    {
        if self.find_deck(id.as_str()).is_some() {
            return Result::Err(AppError::Store);
        }
        if self.next_queue_id == u64::MAX {
            return Result::Err(AppError::Store);
        }
        let qid = self.next_queue_id;
        let d = Deck {
            id,
            name: name.to_owned(),
            description: opt_ref_to_owned(description),
            shuffle_cards,
            created_at: now,
            updated_at: now,
            remote_id: Option::None,
            sync_status: SyncStatus::LocalOnly,
            last_synced_at: Option::None,
            remote_updated_at: Option::None,
            card_count: Option::None,
        };
        let entry = SyncQueueItem {
            id: qid,
            entity_type: EntityKind::Deck,
            entity_id: d.id.clone(),
            operation: QueueOp::Create,
            payload: QueuePayload::Deck(
                DeckPayload { name: d.name.clone(), description: clone_opt_string(&d.description) },
            ),
            created_at: now,
        };
        let ghost pre = self@;
        let ghost dv = d@;
        self.decks.push(d.clone());
        self.queue.push(entry);
        self.next_queue_id = qid + 1;
        proof {
            assert(self@ =~= (StoreView {
                decks: pre.decks.push(dv),
                queue: pre.queue.push(deck_queue_entry(pre.next_queue_id, dv)),
                next_queue_id: ((pre.next_queue_id + 1) as u64),
                ..pre
            }));
            lemma_push_preserves_membership(pre, self@);
        }
        Result::Ok(d)
    }

    /// Creates a deck offline, generating a fresh identifier and reading
    /// the clock; the returned deck carries both.
    pub fn create_deck_local(
        &mut self,
        name: &str,
        description: Option<&str>,
        shuffle_cards: bool,
    ) -> (r: Result<Deck, AppError>)
        requires
            old(self).wf(),
        ensures
            final(self).wf(),
            r matches Ok(d) ==> deck_created(
                old(self)@,
                final(self)@,
                d@,
                name@,
                opt_str_ref(description),
                shuffle_cards,
            ),
            r is Err ==> final(self)@ == old(self)@ && r == Result::<Deck, AppError>::Err(
                AppError::Store,
            ),
    {
        let id = fresh_id();
        let now = now_seconds();
        self.create_deck_with_id(id, now, name, description, shuffle_cards)
    }

    /// Fetches a deck by identifier; `NotFound` exactly when no deck has
    /// it.
    pub fn get_deck_local(&self, id: &str) -> (r: Result<Deck, AppError>)
        requires
            self.wf(),
        ensures
            r matches Ok(d) ==> exists|i: int|
                0 <= i < self@.decks.len() && self@.decks[i].id == id@ && d@ == self@.decks[i],
            r is Ok <==> has_deck(self@, id@),
            r is Err ==> r == Result::<Deck, AppError>::Err(AppError::NotFound),
    {
        match self.find_deck(id) {
            Option::Some(i) => Result::Ok(self.decks[i].clone()),
            Option::None => Result::Err(AppError::NotFound),
        }
    }

    /// Edits a deck: the demotion rule of the sync-status machine applies.
    /// Succeeds exactly when the deck exists.
    pub fn update_deck_local_at(
        &mut self,
        id: &str,
        name: &str,
        description: Option<&str>,
        shuffle_cards: bool,
        now: i64,
    ) -> (r: Result<Deck, AppError>)
        requires
            old(self).wf(),
        ensures
            final(self).wf(),
            r matches Ok(d) ==> exists|i: int|
                deck_updated(
                    old(self)@,
                    final(self)@,
                    d@,
                    i,
                    name@,
                    opt_str_ref(description),
                    shuffle_cards,
                ) && old(self)@.decks[i].id == id@ && d@.updated_at == now as int,
            r is Ok <==> has_deck(old(self)@, id@),
            r is Err ==> final(self)@ == old(self)@ && r == Result::<Deck, AppError>::Err(
                AppError::NotFound,
            ),
    {
        let idx = match self.find_deck(id) {
            Option::Some(i) => i,
            Option::None => {
                return Result::Err(AppError::NotFound);
            },
        };
        let current = &self.decks[idx];
        let new_status = match current.sync_status {
            SyncStatus::Synced => SyncStatus::PendingSync,
            other => other,
        };
        let d = Deck {
            id: current.id.clone(),
            name: name.to_owned(),
            description: opt_ref_to_owned(description),
            shuffle_cards,
            created_at: current.created_at,
            updated_at: now,
            remote_id: current.remote_id,
            sync_status: new_status,
            last_synced_at: current.last_synced_at,
            remote_updated_at: current.remote_updated_at,
            card_count: Option::None,
        };
        let ghost pre = self@;
        let ghost dv = d@;
        self.decks.set(idx, d.clone());
        proof {
            assert(self@ =~= (StoreView { decks: pre.decks.update(idx as int, dv), ..pre }));
            lemma_update_deck_same_id_preserves_membership(pre, self@, idx as int);
            assert(deck_status_ok(pre.decks[idx as int]));
            assert(deck_status_ok(dv));
            assert forall|a: int, b: int| 0 <= a < b < self@.decks.len() implies self@.decks[a].id
                != self@.decks[b].id by {
                assert(pre.decks[a].id != pre.decks[b].id);
            }
            assert(dv =~= (DeckV {
                name: name@,
                description: opt_str_ref(description),
                shuffle_cards: shuffle_cards,
                updated_at: dv.updated_at,
                sync_status: demoted(pre.decks[idx as int].sync_status),
                ..pre.decks[idx as int]
            }));
            assert(deck_updated(
                pre,
                self@,
                dv,
                idx as int,
                name@,
                opt_str_ref(description),
                shuffle_cards,
            ));
        }
        Result::Ok(d)
    }

    /// Edits a deck, reading the clock for the update time.
    pub fn update_deck_local(
        &mut self,
        id: &str,
        name: &str,
        description: Option<&str>,
        shuffle_cards: bool,
    ) -> (r: Result<Deck, AppError>)
        requires
            old(self).wf(),
        ensures
            final(self).wf(),
            r matches Ok(d) ==> exists|i: int|
                deck_updated(
                    old(self)@,
                    final(self)@,
                    d@,
                    i,
                    name@,
                    opt_str_ref(description),
                    shuffle_cards,
                ) && old(self)@.decks[i].id == id@,
            r is Ok <==> has_deck(old(self)@, id@),
            r is Err ==> final(self)@ == old(self)@ && r == Result::<Deck, AppError>::Err(
                AppError::NotFound,
            ),
    {
        let now = now_seconds();
        self.update_deck_local_at(id, name, description, shuffle_cards, now)
    }

    /// Deletes a deck and cascades to its cards, its tags and the card/tag
    /// links whose ends vanish with it. Deleting an unknown identifier
    /// changes nothing; neither outcome is an error.
    pub fn delete_deck_local(&mut self, id: &str)
        requires
            old(self).wf(),
        ensures
            final(self).wf(),
            final(self)@ == (StoreView {
                decks: old(self)@.decks.filter(deck_not(id@)),
                cards: old(self)@.cards.filter(card_not_of_deck(id@)),
                tags: old(self)@.tags.filter(tag_not_of_deck(id@)),
                card_tags: old(self)@.card_tags.filter(
                    link_survives_deck_delete(old(self)@, id@),
                ),
                ..old(self)@
            }),
            !has_deck(final(self)@, id@),
            forall|i: int|
                0 <= i < final(self)@.cards.len() ==> (#[trigger] final(self)@.cards[i]).deck_id
                    != id@,
            forall|i: int|
                0 <= i < final(self)@.tags.len() ==> (#[trigger] final(self)@.tags[i]).deck_id
                    != id@,
    {
        let ghost pre = self@;
        // Decks
        let mut kept_decks: Vec<Deck> = Vec::new();
        let nd = self.decks.len();
        let mut i: usize = 0;
        while i < nd
            invariant
                self@ == pre,
                nd == self.decks.len(),
                i <= nd,
                kept_decks@.map_values(|x: Deck| x@) == pre.decks.take(i as int).filter(
                    deck_not(id@),
                ),
            decreases nd - i,
        {
            proof {
                pre.decks.lemma_take_succ_push(i as int);
                lemma_filter_push(pre.decks.take(i as int), pre.decks[i as int], deck_not(id@));
            }
            if !str_eq(self.decks[i].id.as_str(), id) {
                kept_decks.push(self.decks[i].clone());
            }
            i += 1;
        }
        proof {
            pre.decks.lemma_take_len();
        }
        // Cards
        let mut kept_cards: Vec<Card> = Vec::new();
        let nc = self.cards.len();
        let mut i: usize = 0;
        while i < nc
            invariant
                self@ == pre,
                nc == self.cards.len(),
                i <= nc,
                kept_cards@.map_values(|x: Card| x@) == pre.cards.take(i as int).filter(
                    card_not_of_deck(id@),
                ),
            decreases nc - i,
        {
            proof {
                pre.cards.lemma_take_succ_push(i as int);
                lemma_filter_push(
                    pre.cards.take(i as int),
                    pre.cards[i as int],
                    card_not_of_deck(id@),
                );
            }
            if !str_eq(self.cards[i].deck_id.as_str(), id) {
                kept_cards.push(self.cards[i].clone());
            }
            i += 1;
        }
        proof {
            pre.cards.lemma_take_len();
        }
        // Tags
        let mut kept_tags: Vec<Tag> = Vec::new();
        let nt = self.tags.len();
        let mut i: usize = 0;
        while i < nt
            invariant
                self@ == pre,
                nt == self.tags.len(),
                i <= nt,
                kept_tags@.map_values(|x: Tag| x@) == pre.tags.take(i as int).filter(
                    tag_not_of_deck(id@),
                ),
            decreases nt - i,
        {
            proof {
                pre.tags.lemma_take_succ_push(i as int);
                lemma_filter_push(pre.tags.take(i as int), pre.tags[i as int], tag_not_of_deck(id@));
            }
            if !str_eq(self.tags[i].deck_id.as_str(), id) {
                kept_tags.push(self.tags[i].clone());
            }
            i += 1;
        }
        proof {
            pre.tags.lemma_take_len();
        }
        self.decks = kept_decks;
        self.cards = kept_cards;
        self.tags = kept_tags;
        // Links: keep those whose card and tag both remain.
        let mut kept_links: Vec<CardTagLink> = Vec::new();
        let nl = self.card_tags.len();
        let mut i: usize = 0;
        while i < nl
            invariant
                self@ == (StoreView {
                    decks: pre.decks.filter(deck_not(id@)),
                    cards: pre.cards.filter(card_not_of_deck(id@)),
                    tags: pre.tags.filter(tag_not_of_deck(id@)),
                    ..pre
                }),
                nl == self.card_tags.len(),
                i <= nl,
                kept_links@.map_values(|x: CardTagLink| x@) == pre.card_tags.take(i as int).filter(
                    link_survives_deck_delete(pre, id@),
                ),
            decreases nl - i,
        {
            let ghost lv = self@.card_tags[i as int];
            proof {
                pre.card_tags.lemma_take_succ_push(i as int);
                lemma_filter_push(
                    pre.card_tags.take(i as int),
                    pre.card_tags[i as int],
                    link_survives_deck_delete(pre, id@),
                );
                lemma_filter_exists(
                    pre.cards,
                    card_not_of_deck(id@),
                    |c: CardV| c.id == lv.card_id,
                );
                lemma_filter_exists(pre.tags, tag_not_of_deck(id@), |t: TagV| t.id == lv.tag_id);
            }
            let card_alive = self.find_card(self.card_tags[i].card_id.as_str()).is_some();
            let tag_alive = self.find_tag(self.card_tags[i].tag_id.as_str()).is_some();
            if card_alive && tag_alive {
                let l = CardTagLink {
                    card_id: self.card_tags[i].card_id.clone(),
                    tag_id: self.card_tags[i].tag_id.clone(),
                };
                kept_links.push(l);
            }
            i += 1;
        }
        proof {
            pre.card_tags.lemma_take_len();
        }
        self.card_tags = kept_links;
        proof {
            let post = self@;
            assert(post =~= (StoreView {
                decks: pre.decks.filter(deck_not(id@)),
                cards: pre.cards.filter(card_not_of_deck(id@)),
                tags: pre.tags.filter(tag_not_of_deck(id@)),
                card_tags: pre.card_tags.filter(link_survives_deck_delete(pre, id@)),
                ..pre
            }));
            lemma_deck_delete_preserves_inv(pre, post, id@);
        }
    }

    /// How many cards one deck holds.
    fn count_cards_for(&self, deck_id: &str) -> (n: u64)
        ensures
            n == cards_of_deck(self@, deck_id@).len(),
    {
        let m = self.cards.len();
        let mut n: u64 = 0;
        let mut i: usize = 0;
        while i < m
            invariant
                m == self.cards.len(),
                i <= m,
                n == self@.cards.take(i as int).filter(card_of_deck(deck_id@)).len(),
                n <= i,
            decreases m - i,
        {
            proof {
                self@.cards.lemma_take_succ_push(i as int);
                lemma_filter_push(
                    self@.cards.take(i as int),
                    self@.cards[i as int],
                    card_of_deck(deck_id@),
                );
            }
            if str_eq(self.cards[i].deck_id.as_str(), deck_id) {
                n += 1;
            }
            i += 1;
        }
        proof {
            self@.cards.lemma_take_len();
        }
        n
    }

    /// Lists every deck, most recently updated first, each carrying its
    /// derived card count.
    pub fn get_all_decks_local(&self) -> (r: Vec<Deck>)
        requires
            self.wf(),
        ensures
            r@.map_values(|x: Deck| x@) == sort_by_updated(
                self@.decks.map_values(|d: DeckV| counted_deck(self@, d)),
            ),
            r@.len() == self@.decks.len(),
    {
        let n = self.decks.len();
        let ghost counted = self@.decks.map_values(|d: DeckV| counted_deck(self@, d));
        let mut r: Vec<Deck> = Vec::new();
        let mut i: usize = 0;
        while i < n
            invariant
                self.wf(),
                n == self.decks.len(),
                counted == self@.decks.map_values(|d: DeckV| counted_deck(self@, d)),
                i <= n,
                r@.map_values(|x: Deck| x@) == sort_by_updated(counted.take(i as int)),
            decreases n - i,
        {
            let cnt = self.count_cards_for(self.decks[i].id.as_str());
            let mut d = self.decks[i].clone();
            d.card_count = Option::Some(cnt);
            proof {
                assert(d@ =~= counted_deck(self@, self@.decks[i as int]));
                assert(counted.take(i as int + 1).drop_last() =~= counted.take(i as int));
                assert(counted.take(i as int + 1).last() == counted[i as int]);
                assert(counted[i as int] == d@);
            }
            insert_deck_sorted(&mut r, d);
            i += 1;
        }
        proof {
            assert(counted.take(n as int) =~= counted);
            lemma_sort_by_updated_len(counted);
        }
        r
    }

    /// Applies the demotion rule: a `Synced` deck touched by a local
    /// mutation becomes `PendingSync`.
    fn mark_deck_pending_if_synced(&mut self, deck_id: &str, now: i64)
        requires
            old(self).wf(),
        ensures
            final(self).wf(),
            final(self)@ == demote_deck(old(self)@, deck_id@, now as int),
    {
        let ghost pre = self@;
        let idx = match self.find_deck(deck_id) {
            Option::Some(i) => i,
            Option::None => {
                proof {
                    assert(!(exists|i: int|
                        0 <= i < pre.decks.len() && pre.decks[i].id == deck_id@
                            && pre.decks[i].sync_status == SyncStatus::Synced));
                }
                return ;
            },
        };
        let is_synced = match self.decks[idx].sync_status {
            SyncStatus::Synced => true,
            _ => false,
        };
        if !is_synced {
            proof {
                assert forall|i: int|
                    0 <= i < pre.decks.len() implies !(pre.decks[i].id == deck_id@
                    && pre.decks[i].sync_status == SyncStatus::Synced) by {
                    if i != idx as int && pre.decks[i].id == deck_id@ {
                        assert(pre.decks[i].id == pre.decks[idx as int].id);
                    }
                }
            }
            return ;
        }
        let current = &self.decks[idx];
        let d = Deck {
            id: current.id.clone(),
            name: current.name.clone(),
            description: clone_opt_string(&current.description),
            shuffle_cards: current.shuffle_cards,
            created_at: current.created_at,
            updated_at: now,
            remote_id: current.remote_id,
            sync_status: SyncStatus::PendingSync,
            last_synced_at: current.last_synced_at,
            remote_updated_at: current.remote_updated_at,
            card_count: current.card_count,
        };
        let ghost dv = d@;
        self.decks.set(idx, d);
        proof {
            let j = choose|j: int|
                0 <= j < pre.decks.len() && pre.decks[j].id == deck_id@ && pre.decks[j].sync_status
                    == SyncStatus::Synced;
            assert(j == idx as int);
            assert(dv =~= (DeckV {
                sync_status: SyncStatus::PendingSync,
                updated_at: now as int,
                ..pre.decks[j]
            }));
            assert(self@ =~= demote_deck(pre, deck_id@, now as int));
            lemma_update_deck_same_id_preserves_membership(pre, self@, idx as int);
            assert forall|a: int, b: int| 0 <= a < b < self@.decks.len() implies self@.decks[a].id
                != self@.decks[b].id by {
                assert(pre.decks[a].id != pre.decks[b].id);
            }
            assert(deck_status_ok(pre.decks[idx as int]));
            assert(deck_status_ok(dv));
            assert forall|a: int| 0 <= a < self@.decks.len() implies deck_status_ok(
                #[trigger] self@.decks[a],
            ) && self@.decks[a].card_count.is_none() by {
                if a != idx as int {
                    assert(self@.decks[a] == pre.decks[a]);
                    assert(deck_status_ok(pre.decks[a]));
                }
            }
            lemma_deck_rewrite_tables_inv(pre, self@);
            assert(inv_queue(self@));
            assert(inv_attempts(self@));
            assert(inv_sessions(self@));
        }
    }

    /// The tags attached to one card: identifier and name for each link.
    pub fn get_tags_for_card_local(&self, card_id: &str) -> (r: Vec<CardTag>)
        requires
            self.wf(),
        ensures
            r@.map_values(|t: CardTag| t@) == tags_of_card(self@, card_id@),
    {
        let n = self.card_tags.len();
        let mut r: Vec<CardTag> = Vec::new();
        let mut i: usize = 0;
        while i < n
            invariant
                self.wf(),
                n == self.card_tags.len(),
                i <= n,
                r@.map_values(|t: CardTag| t@) == self@.card_tags.take(i as int).filter(
                    link_of_card(card_id@),
                ).map_values(card_tag_of_link(self@)),
            decreases n - i,
        {
            let ghost lv = self@.card_tags[i as int];
            proof {
                self@.card_tags.lemma_take_succ_push(i as int);
                lemma_filter_push(
                    self@.card_tags.take(i as int),
                    self@.card_tags[i as int],
                    link_of_card(card_id@),
                );
            }
            if str_eq(self.card_tags[i].card_id.as_str(), card_id) {
                match self.find_tag(self.card_tags[i].tag_id.as_str()) {
                    Option::Some(ti) => {
                        let t = CardTag {
                            id: self.card_tags[i].tag_id.clone(),
                            name: self.tags[ti].name.clone(),
                        };
                        proof {
                            let k = choose|k: int|
                                0 <= k < self@.tags.len() && self@.tags[k].id == lv.tag_id;
                            assert(k == ti as int);
                            assert(t@ == card_tag_of_link(self@)(lv));
                            assert(r@.push(t).map_values(|x: CardTag| x@) =~= r@.map_values(
                                |x: CardTag| x@,
                            ).push(t@));
                        }
                        r.push(t);
                    },
                    Option::None => {
                        proof {
                            assert(has_tag(self@, lv.tag_id));
                            assert(false);
                        }
                    },
                }
            }
            i += 1;
        }
        proof {
            self@.card_tags.lemma_take_len();
        }
        r
    }

    /// Creates a card under a caller-supplied identifier and creation
    /// time; the owning deck is demoted and a create entry queued.
    /// Succeeds exactly when the deck exists, the identifier is free and
    /// the queue has room.
    pub fn create_card_with_id(
        &mut self,
        id: String,
        deck_id: &str,
        request: &CreateCardRequest,
        now: i64,
    ) -> (r: Result<Card, AppError>)
        requires
            old(self).wf(),
        ensures
            final(self).wf(),
            r matches Ok(c) ==> card_created(old(self)@, final(self)@, c@, deck_id@, *request)
                && c@.id == id@ && c@.created_at == now as int,
            r is Ok <==> (has_deck(old(self)@, deck_id@) && !has_card(old(self)@, id@) && old(
                self,
            )@.next_queue_id < u64::MAX),
            r is Err ==> final(self)@ == old(self)@,
            !has_deck(old(self)@, deck_id@) ==> r == Result::<Card, AppError>::Err(
                AppError::NotFound,
            ),
            r is Err && has_deck(old(self)@, deck_id@) ==> r == Result::<Card, AppError>::Err(
                AppError::Store,
            ),
    {
        if self.find_deck(deck_id).is_none() {
            return Result::Err(AppError::NotFound);
        }
        if self.find_card(id.as_str()).is_some() {
            return Result::Err(AppError::Store);
        }
        if self.next_queue_id == u64::MAX {
            return Result::Err(AppError::Store);
        }
        let qid = self.next_queue_id;
        let c = Card {
            id,
            deck_id: deck_id.to_owned(),
            front: request.front.clone(),
            front_type: type_or_default_owned(&request.front_type),
            front_language: clone_opt_string(&request.front_language),
            back: request.back.clone(),
            back_type: type_or_default_owned(&request.back_type),
            back_language: clone_opt_string(&request.back_language),
            notes: clone_opt_string(&request.notes),
            created_at: now,
            updated_at: now,
            remote_id: Option::None,
            tags: Vec::new(),
        };
        let entry = SyncQueueItem {
            id: qid,
            entity_type: EntityKind::Card,
            entity_id: c.id.clone(),
            operation: QueueOp::Create,
            payload: QueuePayload::Card(
                CardPayload {
                    front: c.front.clone(),
                    back: c.back.clone(),
                    front_type: c.front_type.clone(),
                    back_type: c.back_type.clone(),
                    front_language: clone_opt_string(&c.front_language),
                    back_language: clone_opt_string(&c.back_language),
                    notes: clone_opt_string(&c.notes),
                },
            ),
            created_at: now,
        };
        let ghost pre = self@;
        let ghost cv = c@;
        self.cards.push(c.clone());
        self.queue.push(entry);
        self.next_queue_id = qid + 1;
        let ghost mid = self@;
        proof {
            assert(mid =~= (StoreView {
                cards: pre.cards.push(cv),
                queue: pre.queue.push(card_queue_entry(pre.next_queue_id, cv)),
                next_queue_id: ((pre.next_queue_id + 1) as u64),
                ..pre
            }));
            lemma_push_preserves_membership(pre, mid);
        }
        self.mark_deck_pending_if_synced(deck_id, now);
        proof {
            assert(self@ =~= (StoreView {
                cards: pre.cards.push(cv),
                decks: demote_deck(pre, deck_id@, now as int).decks,
                queue: pre.queue.push(card_queue_entry(pre.next_queue_id, cv)),
                next_queue_id: ((pre.next_queue_id + 1) as u64),
                ..pre
            }));
        }
        Result::Ok(c)
    }

    /// Creates a card, generating a fresh identifier and reading the
    /// clock; the returned card carries both.
    pub fn create_card_local(&mut self, deck_id: &str, request: &CreateCardRequest) -> (r: Result<
        Card,
        AppError,
    >)
        requires
            old(self).wf(),
        ensures
            final(self).wf(),
            r matches Ok(c) ==> card_created(old(self)@, final(self)@, c@, deck_id@, *request),
            r is Err ==> final(self)@ == old(self)@,
            !has_deck(old(self)@, deck_id@) ==> r == Result::<Card, AppError>::Err(
                AppError::NotFound,
            ),
    {
        let id = fresh_id();
        let now = now_seconds();
        self.create_card_with_id(id, deck_id, request, now)
    }

    fn find_card_in_deck(&self, id: &str, deck_id: &str) -> (r: Option<usize>)
        ensures
            match r {
                Option::Some(i) => i < self@.cards.len() && self@.cards[i as int].id == id@
                    && self@.cards[i as int].deck_id == deck_id@,
                Option::None => !(exists|i: int|
                    0 <= i < self@.cards.len() && self@.cards[i].id == id@ && self@.cards[
                        i
                    ].deck_id == deck_id@),
            },
    {
        let n = self.cards.len();
        let mut i: usize = 0;
        while i < n
            invariant
                n == self.cards.len(),
                i <= n,
                forall|j: int|
                    0 <= j < i ==> !(self@.cards[j].id == id@ && self@.cards[j].deck_id
                        == deck_id@),
            decreases n - i,
        {
            if str_eq(self.cards[i].id.as_str(), id) && str_eq(
                self.cards[i].deck_id.as_str(),
                deck_id,
            ) {
                return Option::Some(i);
            }
            i += 1;
        }
        Option::None
    }

    /// Fetches a card by identifier within a deck, with its tags joined
    /// in; `NotFound` exactly when no such card exists there.
    pub fn get_card_local(&self, id: &str, deck_id: &str) -> (r: Result<Card, AppError>)
        requires
            self.wf(),
        ensures
            r matches Ok(c) ==> exists|i: int|
                0 <= i < self@.cards.len() && self@.cards[i].id == id@ && self@.cards[i].deck_id
                    == deck_id@ && c@ == (CardV { tags: tags_of_card(self@, id@), ..self@.cards[i] }),
            r is Ok <==> exists|i: int|
                0 <= i < self@.cards.len() && (#[trigger] self@.cards[i]).id == id@ && self@.cards[
                    i
                ].deck_id == deck_id@,
            r is Err ==> r == Result::<Card, AppError>::Err(AppError::NotFound),
    {
        match self.find_card_in_deck(id, deck_id) {
            Option::Some(i) => {
                let tags = self.get_tags_for_card_local(id);
                let mut c = self.cards[i].clone();
                c.tags = tags;
                proof {
                    assert(c@ =~= (CardV { tags: tags_of_card(self@, id@), ..self@.cards[i as int] }));
                }
                Result::Ok(c)
            },
            Option::None => Result::Err(AppError::NotFound),
        }
    }

    /// Lists the cards of one deck, earliest created first, each with
    /// its tags.
    pub fn get_cards_for_deck_local(&self, deck_id: &str) -> (r: Vec<Card>)
        requires
            self.wf(),
        ensures
            r@.map_values(|x: Card| x@) == deck_cards_view(self@, deck_id@),
            r@.len() == cards_of_deck(self@, deck_id@).len(),
    {
        let n = self.cards.len();
        let mut rows: Vec<Card> = Vec::new();
        let mut i: usize = 0;
        while i < n
            invariant
                self.wf(),
                n == self.cards.len(),
                i <= n,
                rows@.len() == self@.cards.take(i as int).filter(card_of_deck(deck_id@)).len(),
                forall|j: int|
                    0 <= j < rows@.len() ==> rows@[j]@ == populated_card(
                        self@,
                        self@.cards.take(i as int).filter(card_of_deck(deck_id@))[j],
                    ),
            decreases n - i,
        {
            proof {
                self@.cards.lemma_take_succ_push(i as int);
                lemma_filter_push(
                    self@.cards.take(i as int),
                    self@.cards[i as int],
                    card_of_deck(deck_id@),
                );
            }
            if str_eq(self.cards[i].deck_id.as_str(), deck_id) {
                let tags = self.get_tags_for_card_local(self.cards[i].id.as_str());
                let mut c = self.cards[i].clone();
                c.tags = tags;
                proof {
                    assert(c@ =~= populated_card(self@, self@.cards[i as int]));
                }
                rows.push(c);
            }
            i += 1;
        }
        proof {
            self@.cards.lemma_take_len();
        }
        let ghost popseq = cards_of_deck(self@, deck_id@).map_values(
            |c: CardV| populated_card(self@, c),
        );
        proof {
            assert(rows@.map_values(|x: Card| x@) =~= popseq);
        }
        let m = rows.len();
        let mut r: Vec<Card> = Vec::new();
        let mut i: usize = 0;
        while i < m
            invariant
                m == rows.len(),
                rows@.map_values(|x: Card| x@) == popseq,
                i <= m,
                r@.map_values(|x: Card| x@) == sort_cards_by_created(popseq.take(i as int)),
            decreases m - i,
        {
            let c = rows[i].clone();
            proof {
                assert(popseq.take(i as int + 1).drop_last() =~= popseq.take(i as int));
                assert(popseq.take(i as int + 1).last() == c@);
            }
            insert_card_sorted(&mut r, c);
            i += 1;
        }
        proof {
            popseq.lemma_take_len();
            lemma_sort_cards_by_created_len(popseq);
        }
        r
    }

    /// Edits a card's content under a caller-supplied update time; the
    /// owning deck is demoted. Succeeds exactly when the card exists in
    /// that deck.
    pub fn update_card_local_at(
        &mut self,
        id: &str,
        deck_id: &str,
        request: &UpdateCardRequest,
        now: i64,
    ) -> (r: Result<Card, AppError>)
        requires
            old(self).wf(),
        ensures
            final(self).wf(),
            r matches Ok(c) ==> exists|i: int|
                card_updated(old(self)@, final(self)@, c@, i, id@, deck_id@, *request, now as int),
            r is Ok <==> exists|i: int|
                0 <= i < old(self)@.cards.len() && (#[trigger] old(self)@.cards[i]).id == id@ && old(
                    self,
                )@.cards[i].deck_id == deck_id@,
            r is Err ==> final(self)@ == old(self)@ && r == Result::<Card, AppError>::Err(
                AppError::NotFound,
            ),
    {
        let idx = match self.find_card_in_deck(id, deck_id) {
            Option::Some(i) => i,
            Option::None => {
                return Result::Err(AppError::NotFound);
            },
        };
        let tags = self.get_tags_for_card_local(id);
        let current = &self.cards[idx];
        let stored = Card {
            id: current.id.clone(),
            deck_id: current.deck_id.clone(),
            front: request.front.clone(),
            front_type: type_or_default_owned(&request.front_type),
            front_language: clone_opt_string(&request.front_language),
            back: request.back.clone(),
            back_type: type_or_default_owned(&request.back_type),
            back_language: clone_opt_string(&request.back_language),
            notes: clone_opt_string(&request.notes),
            created_at: current.created_at,
            updated_at: now,
            remote_id: current.remote_id,
            tags: Vec::new(),
        };
        let mut c = stored.clone();
        c.tags = tags;
        let ghost pre = self@;
        let ghost cv = c@;
        self.cards.set(idx, stored);
        let ghost mid = self@;
        proof {
            assert(mid =~~= (StoreView { cards: pre.cards.update(idx as int, stored_card(cv)), ..pre }));
            lemma_card_update_same_identity_preserves_inv(pre, mid, idx as int);
        }
        self.mark_deck_pending_if_synced(deck_id, now);
        proof {
            assert(self@ =~= (StoreView {
                cards: pre.cards.update(idx as int, stored_card(cv)),
                decks: demote_decks(pre.decks, deck_id@, now as int),
                ..pre
            }));
            assert(cv =~= (CardV {
                front: request.front@,
                front_type: type_or_default(opt_str(request.front_type)),
                front_language: opt_str(request.front_language),
                back: request.back@,
                back_type: type_or_default(opt_str(request.back_type)),
                back_language: opt_str(request.back_language),
                notes: opt_str(request.notes),
                updated_at: now as int,
                tags: cv.tags,
                ..pre.cards[idx as int]
            }));
            assert(card_updated(pre, self@, cv, idx as int, id@, deck_id@, *request, now as int));
        }
        Result::Ok(c)
    }

    /// Edits a card's content, reading the clock for the update time.
    pub fn update_card_local(
        &mut self,
        id: &str,
        deck_id: &str,
        request: &UpdateCardRequest,
    ) -> (r: Result<Card, AppError>)
        requires
            old(self).wf(),
        ensures
            final(self).wf(),
            r matches Ok(c) ==> exists|i: int, now: int|
                card_updated(old(self)@, final(self)@, c@, i, id@, deck_id@, *request, now),
            r is Ok <==> exists|i: int|
                0 <= i < old(self)@.cards.len() && (#[trigger] old(self)@.cards[i]).id == id@ && old(
                    self,
                )@.cards[i].deck_id == deck_id@,
            r is Err ==> final(self)@ == old(self)@ && r == Result::<Card, AppError>::Err(
                AppError::NotFound,
            ),
    {
        let now = now_seconds();
        self.update_card_local_at(id, deck_id, request, now)
    }

    /// Deletes a card and the links that attached tags to it; the owning
    /// deck is demoted — even when the card was already gone, since the
    /// demotion accompanies the mutation, not its effect. Neither
    /// outcome is an error.
    pub fn delete_card_local(&mut self, id: &str, deck_id: &str, now: i64)
        requires
            old(self).wf(),
        ensures
            final(self).wf(),
            final(self)@ == (StoreView {
                cards: old(self)@.cards.filter(card_not_matching(id@, deck_id@)),
                card_tags: old(self)@.card_tags.filter(
                    link_survives_card_delete(old(self)@, id@, deck_id@),
                ),
                decks: demote_decks(old(self)@.decks, deck_id@, now as int),
                ..old(self)@
            }),
    {
        let ghost pre = self@;
        // Cards
        let mut kept_cards: Vec<Card> = Vec::new();
        let nc = self.cards.len();
        let mut i: usize = 0;
        while i < nc
            invariant
                self@ == pre,
                nc == self.cards.len(),
                i <= nc,
                kept_cards@.map_values(|x: Card| x@) == pre.cards.take(i as int).filter(
                    card_not_matching(id@, deck_id@),
                ),
            decreases nc - i,
        {
            proof {
                pre.cards.lemma_take_succ_push(i as int);
                lemma_filter_push(
                    pre.cards.take(i as int),
                    pre.cards[i as int],
                    card_not_matching(id@, deck_id@),
                );
            }
            if !(str_eq(self.cards[i].id.as_str(), id) && str_eq(
                self.cards[i].deck_id.as_str(),
                deck_id,
            )) {
                kept_cards.push(self.cards[i].clone());
            }
            i += 1;
        }
        proof {
            pre.cards.lemma_take_len();
        }
        self.cards = kept_cards;
        // Links
        let mut kept_links: Vec<CardTagLink> = Vec::new();
        let nl = self.card_tags.len();
        let mut i: usize = 0;
        while i < nl
            invariant
                self@ == (StoreView {
                    cards: pre.cards.filter(card_not_matching(id@, deck_id@)),
                    ..pre
                }),
                nl == self.card_tags.len(),
                i <= nl,
                kept_links@.map_values(|x: CardTagLink| x@) == pre.card_tags.take(i as int).filter(
                    link_survives_card_delete(pre, id@, deck_id@),
                ),
            decreases nl - i,
        {
            let ghost lv = self@.card_tags[i as int];
            proof {
                pre.card_tags.lemma_take_succ_push(i as int);
                lemma_filter_push(
                    pre.card_tags.take(i as int),
                    pre.card_tags[i as int],
                    link_survives_card_delete(pre, id@, deck_id@),
                );
                lemma_filter_exists(
                    pre.cards,
                    card_not_matching(id@, deck_id@),
                    |c: CardV| c.id == lv.card_id,
                );
            }
            if self.find_card(self.card_tags[i].card_id.as_str()).is_some() {
                let l = CardTagLink {
                    card_id: self.card_tags[i].card_id.clone(),
                    tag_id: self.card_tags[i].tag_id.clone(),
                };
                kept_links.push(l);
            }
            i += 1;
        }
        proof {
            pre.card_tags.lemma_take_len();
        }
        self.card_tags = kept_links;
        let ghost mid = self@;
        proof {
            assert(mid =~= (StoreView {
                cards: pre.cards.filter(card_not_matching(id@, deck_id@)),
                card_tags: pre.card_tags.filter(link_survives_card_delete(pre, id@, deck_id@)),
                ..pre
            }));
            lemma_card_delete_preserves_inv(pre, mid, id@, deck_id@);
        }
        self.mark_deck_pending_if_synced(deck_id, now);
        proof {
            assert(self@ =~= (StoreView {
                cards: pre.cards.filter(card_not_matching(id@, deck_id@)),
                card_tags: pre.card_tags.filter(link_survives_card_delete(pre, id@, deck_id@)),
                decks: demote_decks(pre.decks, deck_id@, now as int),
                ..pre
            }));
        }
    }

    // ============================================
    // Tag operations
    // ============================================
    /// Creates a tag in a deck under a caller-supplied identifier; the
    /// deck is demoted. Succeeds exactly when the deck exists, the
    /// identifier is free, and no tag of the deck already carries the
    /// name: tag names are unique per deck, not globally.
    pub fn create_tag_with_id(
        &mut self,
        id: String,
        deck_id: &str,
        name: &str,
        now: i64,
    ) -> (r: Result<Tag, AppError>)
        requires
            old(self).wf(),
        ensures
            final(self).wf(),
            r matches Ok(t) ==> tag_created(
                old(self)@,
                final(self)@,
                t@,
                deck_id@,
                name@,
                now as int,
            ) && t@.id == id@,
            r is Ok <==> (has_deck(old(self)@, deck_id@) && !has_tag(old(self)@, id@)
                && !has_tag_named(old(self)@, deck_id@, name@)),
            r is Err ==> final(self)@ == old(self)@,
            !has_deck(old(self)@, deck_id@) ==> r == Result::<Tag, AppError>::Err(
                AppError::NotFound,
            ),
            r is Err && has_deck(old(self)@, deck_id@) ==> r == Result::<Tag, AppError>::Err(
                AppError::Store,
            ),
    {
        if self.find_deck(deck_id).is_none() {
            return Result::Err(AppError::NotFound);
        }
        if self.find_tag(id.as_str()).is_some() {
            return Result::Err(AppError::Store);
        }
        if self.get_tag_by_name(deck_id, name).is_some() {
            return Result::Err(AppError::Store);
        }
        let t = Tag {
            id,
            deck_id: deck_id.to_owned(),
            name: name.to_owned(),
            remote_id: Option::None,
        };
        let ghost pre = self@;
        let ghost tv = t@;
        self.tags.push(t.clone());
        let ghost mid = self@;
        proof {
            assert(mid =~= (StoreView { tags: pre.tags.push(tv), ..pre }));
            lemma_push_preserves_membership(pre, mid);
            assert(!has_tag_named(pre, deck_id@, name@));
            assert forall|a: int, b: int| 0 <= a < b < mid.tags.len() implies !(mid.tags[a].deck_id
                == mid.tags[b].deck_id && mid.tags[a].name == mid.tags[b].name) by {
                if b == mid.tags.len() - 1 {
                    assert(mid.tags[a] == pre.tags[a]);
                    assert(mid.tags[b] == tv);
                } else {
                    assert(mid.tags[a] == pre.tags[a] && mid.tags[b] == pre.tags[b]);
                }
            }
        }
        self.mark_deck_pending_if_synced(deck_id, now);
        proof {
            assert(self@ =~= (StoreView {
                tags: pre.tags.push(tv),
                decks: demote_decks(pre.decks, deck_id@, now as int),
                ..pre
            }));
        }
        Result::Ok(t)
    }

    /// Creates a tag, generating a fresh identifier and reading the
    /// clock for the deck demotion.
    pub fn create_tag_local(&mut self, deck_id: &str, name: &str) -> (r: Result<Tag, AppError>)
        requires
            old(self).wf(),
        ensures
            final(self).wf(),
            r matches Ok(t) ==> exists|now: int|
                tag_created(old(self)@, final(self)@, t@, deck_id@, name@, now),
            r is Err ==> final(self)@ == old(self)@,
            !has_deck(old(self)@, deck_id@) ==> r == Result::<Tag, AppError>::Err(
                AppError::NotFound,
            ),
            has_deck(old(self)@, deck_id@) && has_tag_named(old(self)@, deck_id@, name@) ==> r
                == Result::<Tag, AppError>::Err(AppError::Store),
    {
        let id = fresh_id();
        let now = now_seconds();
        self.create_tag_with_id(id, deck_id, name, now)
    }

    /// Lists the tags of one deck, names ascending.
    pub fn get_tags_for_deck_local(&self, deck_id: &str) -> (r: Vec<Tag>)
        requires
            self.wf(),
        ensures
            r@.map_values(|t: Tag| t@) == sort_by_name(tags_of_deck(self@, deck_id@)),
            r@.len() == tags_of_deck(self@, deck_id@).len(),
    {
        let n = self.tags.len();
        let mut rows: Vec<Tag> = Vec::new();
        let mut i: usize = 0;
        while i < n
            invariant
                n == self.tags.len(),
                i <= n,
                rows@.map_values(|t: Tag| t@) == self@.tags.take(i as int).filter(
                    tag_of_deck(deck_id@),
                ),
            decreases n - i,
        {
            proof {
                self@.tags.lemma_take_succ_push(i as int);
                lemma_filter_push(
                    self@.tags.take(i as int),
                    self@.tags[i as int],
                    tag_of_deck(deck_id@),
                );
            }
            if str_eq(self.tags[i].deck_id.as_str(), deck_id) {
                let t = self.tags[i].clone();
                proof {
                    assert(rows@.push(t).map_values(|x: Tag| x@) =~= rows@.map_values(
                        |x: Tag| x@,
                    ).push(t@));
                }
                rows.push(t);
            }
            i += 1;
        }
        proof {
            self@.tags.lemma_take_len();
        }
        let ghost unsorted = tags_of_deck(self@, deck_id@);
        let m = rows.len();
        let mut r: Vec<Tag> = Vec::new();
        let mut i: usize = 0;
        while i < m
            invariant
                m == rows.len(),
                rows@.map_values(|t: Tag| t@) == unsorted,
                i <= m,
                r@.map_values(|t: Tag| t@) == sort_by_name(unsorted.take(i as int)),
            decreases m - i,
        {
            let t = rows[i].clone();
            proof {
                assert(unsorted.take(i as int + 1).drop_last() =~= unsorted.take(i as int));
                assert(unsorted.take(i as int + 1).last() == t@);
            }
            insert_tag_sorted(&mut r, t);
            i += 1;
        }
        proof {
            unsorted.lemma_take_len();
            lemma_sort_by_name_len(unsorted);
        }
        r
    }

    /// The tag of a deck carrying a given name, if any; per-deck name
    /// uniqueness makes the match unambiguous.
    pub fn get_tag_by_name(&self, deck_id: &str, name: &str) -> (r: Option<Tag>)
        requires
            self.wf(),
        ensures
            match r {
                Option::Some(t) => exists|i: int|
                    0 <= i < self@.tags.len() && self@.tags[i] == t@ && t@.deck_id == deck_id@
                        && t@.name == name@,
                Option::None => !(exists|i: int|
                    0 <= i < self@.tags.len() && (#[trigger] self@.tags[i]).deck_id == deck_id@
                        && self@.tags[i].name == name@),
            },
    {
        let n = self.tags.len();
        let mut i: usize = 0;
        while i < n
            invariant
                n == self.tags.len(),
                i <= n,
                forall|j: int|
                    0 <= j < i ==> !((#[trigger] self@.tags[j]).deck_id == deck_id@
                        && self@.tags[j].name == name@),
            decreases n - i,
        {
            if str_eq(self.tags[i].deck_id.as_str(), deck_id) && str_eq(
                self.tags[i].name.as_str(),
                name,
            ) {
                let t = self.tags[i].clone();
                proof {
                    assert(self@.tags[i as int] == t@ && t@.deck_id == deck_id@ && t@.name
                        == name@);
                }
                return Option::Some(t);
            }
            i += 1;
        }
        Option::None
    }

    /// Deletes a tag from a deck and the links that attached it to
    /// cards; the deck is demoted. Unknown identifiers change nothing.
    pub fn delete_tag_local(&mut self, deck_id: &str, id: &str, now: i64)
        requires
            old(self).wf(),
        ensures
            final(self).wf(),
            final(self)@ == (StoreView {
                tags: old(self)@.tags.filter(tag_not_matching(id@, deck_id@)),
                card_tags: old(self)@.card_tags.filter(
                    link_survives_tag_delete(old(self)@, id@, deck_id@),
                ),
                decks: demote_decks(old(self)@.decks, deck_id@, now as int),
                ..old(self)@
            }),
    {
        let ghost pre = self@;
        // Tags
        let mut kept_tags: Vec<Tag> = Vec::new();
        let nt = self.tags.len();
        let mut i: usize = 0;
        while i < nt
            invariant
                self@ == pre,
                nt == self.tags.len(),
                i <= nt,
                kept_tags@.map_values(|x: Tag| x@) == pre.tags.take(i as int).filter(
                    tag_not_matching(id@, deck_id@),
                ),
            decreases nt - i,
        {
            proof {
                pre.tags.lemma_take_succ_push(i as int);
                lemma_filter_push(
                    pre.tags.take(i as int),
                    pre.tags[i as int],
                    tag_not_matching(id@, deck_id@),
                );
            }
            if !(str_eq(self.tags[i].id.as_str(), id) && str_eq(
                self.tags[i].deck_id.as_str(),
                deck_id,
            )) {
                kept_tags.push(self.tags[i].clone());
            }
            i += 1;
        }
        proof {
            pre.tags.lemma_take_len();
        }
        self.tags = kept_tags;
        // Links
        let mut kept_links: Vec<CardTagLink> = Vec::new();
        let nl = self.card_tags.len();
        let mut i: usize = 0;
        while i < nl
            invariant
                self@ == (StoreView {
                    tags: pre.tags.filter(tag_not_matching(id@, deck_id@)),
                    ..pre
                }),
                nl == self.card_tags.len(),
                i <= nl,
                kept_links@.map_values(|x: CardTagLink| x@) == pre.card_tags.take(i as int).filter(
                    link_survives_tag_delete(pre, id@, deck_id@),
                ),
            decreases nl - i,
        {
            let ghost lv = self@.card_tags[i as int];
            proof {
                pre.card_tags.lemma_take_succ_push(i as int);
                lemma_filter_push(
                    pre.card_tags.take(i as int),
                    pre.card_tags[i as int],
                    link_survives_tag_delete(pre, id@, deck_id@),
                );
                lemma_filter_exists(
                    pre.tags,
                    tag_not_matching(id@, deck_id@),
                    |t: TagV| t.id == lv.tag_id,
                );
            }
            if self.find_tag(self.card_tags[i].tag_id.as_str()).is_some() {
                let l = CardTagLink {
                    card_id: self.card_tags[i].card_id.clone(),
                    tag_id: self.card_tags[i].tag_id.clone(),
                };
                kept_links.push(l);
            }
            i += 1;
        }
        proof {
            pre.card_tags.lemma_take_len();
        }
        self.card_tags = kept_links;
        let ghost mid = self@;
        proof {
            assert(mid =~= (StoreView {
                tags: pre.tags.filter(tag_not_matching(id@, deck_id@)),
                card_tags: pre.card_tags.filter(link_survives_tag_delete(pre, id@, deck_id@)),
                ..pre
            }));
            lemma_tag_delete_preserves_inv(pre, mid, id@, deck_id@);
        }
        self.mark_deck_pending_if_synced(deck_id, now);
        proof {
            assert(self@ =~= (StoreView {
                tags: pre.tags.filter(tag_not_matching(id@, deck_id@)),
                card_tags: pre.card_tags.filter(link_survives_tag_delete(pre, id@, deck_id@)),
                decks: demote_decks(pre.decks, deck_id@, now as int),
                ..pre
            }));
        }
    }

    fn find_link(&self, card_id: &str, tag_id: &str) -> (r: Option<usize>)
        ensures
            match r {
                Option::Some(i) => i < self@.card_tags.len() && self@.card_tags[i as int].card_id
                    == card_id@ && self@.card_tags[i as int].tag_id == tag_id@,
                Option::None => !has_card_tag_link(self@, card_id@, tag_id@),
            },
    {
        let n = self.card_tags.len();
        let mut i: usize = 0;
        while i < n
            invariant
                n == self.card_tags.len(),
                i <= n,
                forall|j: int|
                    0 <= j < i ==> !((#[trigger] self@.card_tags[j]).card_id == card_id@
                        && self@.card_tags[j].tag_id == tag_id@),
            decreases n - i,
        {
            if str_eq(self.card_tags[i].card_id.as_str(), card_id) && str_eq(
                self.card_tags[i].tag_id.as_str(),
                tag_id,
            ) {
                return Option::Some(i);
            }
            i += 1;
        }
        Option::None
    }

    /// Attaches a tag to a card; attaching an already-attached tag is a
    /// no-op. Either way the deck is demoted. Fails exactly when the
    /// card or the tag does not exist.
    pub fn add_tag_to_card_local(
        &mut self,
        deck_id: &str,
        card_id: &str,
        tag_id: &str,
        now: i64,
    ) -> (r: Result<(), AppError>)
        requires
            old(self).wf(),
        ensures
            final(self).wf(),
            r is Ok <==> (has_card(old(self)@, card_id@) && has_tag(old(self)@, tag_id@)),
            r is Ok && has_card_tag_link(old(self)@, card_id@, tag_id@) ==> final(self)@
                == demote_deck(old(self)@, deck_id@, now as int),
            r is Ok && !has_card_tag_link(old(self)@, card_id@, tag_id@) ==> final(self)@
                == (StoreView {
                card_tags: old(self)@.card_tags.push(
                    CardTagLinkV { card_id: card_id@, tag_id: tag_id@ },
                ),
                decks: demote_decks(old(self)@.decks, deck_id@, now as int),
                ..old(self)@
            }),
            r is Err ==> final(self)@ == old(self)@ && r == Result::<(), AppError>::Err(
                AppError::Store,
            ),
    {
        if self.find_card(card_id).is_none() {
            return Result::Err(AppError::Store);
        }
        if self.find_tag(tag_id).is_none() {
            return Result::Err(AppError::Store);
        }
        let ghost pre = self@;
        if self.find_link(card_id, tag_id).is_none() {
            let l = CardTagLink { card_id: card_id.to_owned(), tag_id: tag_id.to_owned() };
            self.card_tags.push(l);
            let ghost mid = self@;
            proof {
                assert(mid =~= (StoreView {
                    card_tags: pre.card_tags.push(
                        CardTagLinkV { card_id: card_id@, tag_id: tag_id@ },
                    ),
                    ..pre
                }));
                lemma_push_preserves_membership(pre, mid);
            }
            self.mark_deck_pending_if_synced(deck_id, now);
            proof {
                assert(self@ =~= (StoreView {
                    card_tags: pre.card_tags.push(
                        CardTagLinkV { card_id: card_id@, tag_id: tag_id@ },
                    ),
                    decks: demote_decks(pre.decks, deck_id@, now as int),
                    ..pre
                }));
            }
        } else {
            self.mark_deck_pending_if_synced(deck_id, now);
        }
        Result::Ok(())
    }

    /// Detaches a tag from a card; the deck is demoted. Detaching an
    /// absent pair changes nothing; neither outcome is an error.
    pub fn remove_tag_from_card_local(&mut self, deck_id: &str, card_id: &str, tag_id: &str, now: i64)
        requires
            old(self).wf(),
        ensures
            final(self).wf(),
            final(self)@ == (StoreView {
                card_tags: old(self)@.card_tags.filter(link_not_pair(card_id@, tag_id@)),
                decks: demote_decks(old(self)@.decks, deck_id@, now as int),
                ..old(self)@
            }),
    {
        let ghost pre = self@;
        let mut kept_links: Vec<CardTagLink> = Vec::new();
        let nl = self.card_tags.len();
        let mut i: usize = 0;
        while i < nl
            invariant
                self@ == pre,
                nl == self.card_tags.len(),
                i <= nl,
                kept_links@.map_values(|x: CardTagLink| x@) == pre.card_tags.take(i as int).filter(
                    link_not_pair(card_id@, tag_id@),
                ),
            decreases nl - i,
        {
            proof {
                pre.card_tags.lemma_take_succ_push(i as int);
                lemma_filter_push(
                    pre.card_tags.take(i as int),
                    pre.card_tags[i as int],
                    link_not_pair(card_id@, tag_id@),
                );
            }
            if !(str_eq(self.card_tags[i].card_id.as_str(), card_id) && str_eq(
                self.card_tags[i].tag_id.as_str(),
                tag_id,
            )) {
                let l = CardTagLink {
                    card_id: self.card_tags[i].card_id.clone(),
                    tag_id: self.card_tags[i].tag_id.clone(),
                };
                kept_links.push(l);
            }
            i += 1;
        }
        proof {
            pre.card_tags.lemma_take_len();
        }
        self.card_tags = kept_links;
        let ghost mid = self@;
        proof {
            assert(mid =~= (StoreView {
                card_tags: pre.card_tags.filter(link_not_pair(card_id@, tag_id@)),
                ..pre
            }));
            lemma_link_filter_preserves_inv(pre, mid, link_not_pair(card_id@, tag_id@));
        }
        self.mark_deck_pending_if_synced(deck_id, now);
        proof {
            assert(self@ =~= (StoreView {
                card_tags: pre.card_tags.filter(link_not_pair(card_id@, tag_id@)),
                decks: demote_decks(pre.decks, deck_id@, now as int),
                ..pre
            }));
        }
    }
}

/// Inserts a question into a position-sorted vector, keeping arrival
/// order among equal positions.
fn insert_question_sorted(r: &mut Vec<Question>, q: Question)
    ensures
        final(r)@.map_values(|x: Question| x@) == insert_by_position(
            q@,
            old(r)@.map_values(|x: Question| x@),
        ),
{
    let ghost s = r@.map_values(|x: Question| x@);
    let n = r.len();
    let mut idx: usize = 0;
    while idx < n && !(q.position < r[idx].position)
        invariant
            n == r.len(),
            s == r@.map_values(|x: Question| x@),
            idx <= n,
            forall|k: int| 0 <= k < idx ==> !(q@.position < (#[trigger] s[k]).position),
        decreases n - idx,
    {
        idx += 1;
    }
    proof {
        lemma_insert_by_position_skip(q@, s, idx as int);
        if idx < n {
            assert(s.skip(idx as int)[0] == s[idx as int]);
            assert(insert_by_position(q@, s.skip(idx as int)) == seq![q@] + s.skip(idx as int));
        } else {
            assert(s.skip(idx as int).len() == 0);
        }
    }
    r.insert(idx, q);
    proof {
        assert(r@.map_values(|x: Question| x@) =~= s.take(idx as int) + insert_by_position(
            q@,
            s.skip(idx as int),
        ));
    }
}

// ============================================
// Quiz-side transition descriptions
// ============================================
/// The questions of one quiz as `get_quiz` and question listings return
/// them: position-sorted, each with its choices and tags joined in.
pub open spec fn quiz_questions_view(v: StoreView, qid: Seq<char>) -> Seq<QuestionV> {
    sort_by_position(questions_of_quiz(v, qid)).map_values(
        |q: QuestionV| populated_question(v, q),
    )
}

/// How a store changes when a quiz is created.
pub open spec fn quiz_created(pre: StoreView, post: StoreView, qz: QuizV, req: CreateQuizRequest) -> bool {
    &&& qz.name == req.name@
    &&& qz.description == opt_str(req.description)
    &&& qz.shuffle_questions == (req.shuffle_questions == Option::<bool>::Some(true))
    &&& qz.updated_at == qz.created_at
    &&& qz.questions.len() == 0
    &&& qz.question_count == Option::<u64>::Some(0)
    &&& !has_quiz(pre, qz.id)
    &&& post == (StoreView {
        quizzes: pre.quizzes.push(QuizV { question_count: Option::None, ..qz }),
        ..pre
    })
}

/// The returned question's content agrees with the creation request; the
/// stored discriminant is the parsed form of the request's type string.
pub open spec fn question_matches_request(
    q: QuestionV,
    quiz_id: Seq<char>,
    req: CreateQuestionRequest,
) -> bool {
    &&& q.quiz_id == quiz_id
    &&& (q.question_type == QuestionType::FillInBlank <==> req.question_type@ == "fill_in_blank"@)
    &&& q.content == req.content@
    &&& q.content_type == type_or_default(opt_str(req.content_type))
    &&& q.content_language == opt_str(req.content_language)
    &&& q.correct_answer == opt_str(req.correct_answer)
    &&& q.multiple_answers == (req.multiple_answers == Option::<bool>::Some(true))
    &&& q.explanation == opt_str(req.explanation)
    &&& q.updated_at == q.created_at
}

/// The next free position in a quiz: one past the greatest in use, or 0.
pub open spec fn next_position(v: StoreView, qid: Seq<char>) -> int {
    max_position(questions_of_quiz(v, qid)) + 1
}

pub open spec fn max_position(s: Seq<QuestionV>) -> int
    decreases s.len(),
{
    if s.len() == 0 {
        -1
    } else {
        let rest = max_position(s.drop_last());
        if s.last().position > rest {
            s.last().position as int
        } else {
            rest
        }
    }
}

/// How a store changes when a quiz row is edited.
pub open spec fn quiz_updated(
    pre: StoreView,
    post: StoreView,
    i: int,
    req: UpdateQuizRequest,
    now: int,
) -> bool {
    &&& 0 <= i < pre.quizzes.len()
    &&& post == (StoreView {
        quizzes: pre.quizzes.update(
            i,
            QuizV {
                name: req.name@,
                description: opt_str(req.description),
                shuffle_questions: (req.shuffle_questions == Option::<bool>::Some(true)),
                updated_at: now,
                ..pre.quizzes[i]
            },
        ),
        ..pre
    })
}

/// The returned choice's content agrees with its creation request.
pub open spec fn choice_matches_request(
    c: ChoiceV,
    question_id: Seq<char>,
    req: CreateChoiceRequest,
    position: i32,
) -> bool {
    &&& c.question_id == question_id
    &&& c.text == req.text@
    &&& c.is_correct == req.is_correct
    &&& c.position == position
}

/// A freshly created block of choices mirrors the requested ones, in
/// order, at positions 0, 1, 2, ...
pub open spec fn choices_match_requests(
    cs: Seq<ChoiceV>,
    question_id: Seq<char>,
    reqs: Seq<CreateChoiceRequest>,
) -> bool {
    &&& cs.len() == reqs.len()
    &&& forall|i: int|
        0 <= i < cs.len() ==> choice_matches_request(
            #[trigger] cs[i],
            question_id,
            reqs[i],
            i as i32,
        )
}

/// The deterministic preconditions of a question creation, judged
/// against one store state: the quiz exists, the identifier is free,
/// and the quiz's next position and the requested choice count fit in
/// `i32`. A creation that draws fresh choice identifiers can fail
/// beyond these only when a drawn identifier collides; one without
/// choices cannot.
pub open spec fn question_create_ok(
    v: StoreView,
    id: Seq<char>,
    quiz_id: Seq<char>,
    req: CreateQuestionRequest,
) -> bool {
    &&& has_quiz(v, quiz_id)
    &&& !has_question(v, id)
    &&& next_position(v, quiz_id) <= i32::MAX
    &&& (match req.choices {
        Option::Some(cs) => cs@.len() <= i32::MAX,
        Option::None => true,
    })
}

/// How a store changes when a question is created: the row is appended
/// at the next free position, followed by its requested choices.
pub open spec fn question_created(
    pre: StoreView,
    post: StoreView,
    q: QuestionV,
    quiz_id: Seq<char>,
    req: CreateQuestionRequest,
) -> bool {
    &&& question_matches_request(q, quiz_id, req)
    &&& q.position == next_position(pre, quiz_id)
    &&& q.tags.len() == 0
    &&& !has_question(pre, q.id)
    &&& (match req.choices {
        Option::Some(reqs) => choices_match_requests(q.choices, q.id, reqs@),
        Option::None => q.choices.len() == 0,
    })
    &&& forall|i: int| 0 <= i < q.choices.len() ==> !has_choice(pre, (#[trigger] q.choices[i]).id)
    &&& forall|i: int, j: int| 0 <= i < j < q.choices.len() ==> q.choices[i].id != q.choices[j].id
    &&& post == (StoreView {
        questions: pre.questions.push(stored_question(q)),
        choices: pre.choices + q.choices,
        ..pre
    })
}

/// How a store changes when a question row is edited: content and
/// grading fields are replaced, identity, position and creation time
/// kept.
pub open spec fn question_updated(
    pre: StoreView,
    post: StoreView,
    i: int,
    req: UpdateQuestionRequest,
    now: int,
) -> bool {
    &&& 0 <= i < pre.questions.len()
    &&& post == (StoreView {
        questions: pre.questions.update(
            i,
            QuestionV {
                question_type: if req.question_type@ == "fill_in_blank"@ {
                    QuestionType::FillInBlank
                } else {
                    QuestionType::MultipleChoice
                },
                content: req.content@,
                content_type: type_or_default(opt_str(req.content_type)),
                content_language: opt_str(req.content_language),
                correct_answer: opt_str(req.correct_answer),
                multiple_answers: (req.multiple_answers == Option::<bool>::Some(true)),
                explanation: opt_str(req.explanation),
                updated_at: now,
                ..pre.questions[i]
            },
        ),
        ..pre
    })
}

// ============================================
// Attempts and grading
// ============================================
/// The results recorded for one attempt, in store order.
pub open spec fn result_of_attempt(aid: Seq<char>) -> spec_fn(QuestionResultV) -> bool {
    |r: QuestionResultV| r.attempt_id == aid
}

pub open spec fn results_of_attempt(v: StoreView, aid: Seq<char>) -> Seq<QuestionResultV> {
    v.question_results.filter(result_of_attempt(aid))
}

/// Whether one submitted answer grades as correct against the question
/// it names, with that question's choices joined in.
pub open spec fn answer_correct(v: StoreView, a: QuestionAnswer) -> bool {
    exists|i: int|
        0 <= i < v.questions.len() && (#[trigger] v.questions[i]).id == a.question_id@
            && crate::grading::grade_answer_spec(
            populated_question(v, v.questions[i]),
            a.answer@,
        )
}

/// How many of the submitted answers grade as correct.
pub open spec fn count_correct(v: StoreView, answers: Seq<QuestionAnswer>) -> int
    decreases answers.len(),
{
    if answers.len() == 0 {
        0
    } else {
        count_correct(v, answers.drop_last()) + (if answer_correct(v, answers.last()) {
            1int
        } else {
            0int
        })
    }
}

pub proof fn lemma_count_correct_bound(v: StoreView, answers: Seq<QuestionAnswer>)
    ensures
        0 <= count_correct(v, answers) <= answers.len(),
    decreases answers.len(),
{
    if answers.len() > 0 {
        lemma_count_correct_bound(v, answers.drop_last());
    }
}

/// How a store changes when an attempt is submitted: one result row per
/// answer is appended, and the attempt is finalized with its completion
/// time, duration, tally and rounded score.
pub open spec fn attempt_submitted(
    pre: StoreView,
    post: StoreView,
    i: int,
    results: Seq<QuestionResultV>,
    answers: Seq<QuestionAnswer>,
    now: int,
) -> bool {
    &&& 0 <= i < pre.attempts.len()
    &&& results.len() == answers.len()
    &&& (forall|k: int|
        0 <= k < results.len() ==> {
            &&& (#[trigger] results[k]).attempt_id == pre.attempts[i].id
            &&& results[k].question_id == answers[k].question_id@
            &&& results[k].user_answer == Option::Some(answers[k].answer@)
            &&& results[k].is_correct == answer_correct(pre, answers[k])
        })
    &&& post == (StoreView {
        attempts: pre.attempts.update(
            i,
            QuizAttemptV {
                completed_at: Option::Some(now as i64),
                duration_seconds: Option::Some((now - pre.attempts[i].started_at) as i64),
                correct_answers: count_correct(pre, answers) as u64,
                score_percentage: score_of(
                    count_correct(pre, answers),
                    pre.attempts[i].total_questions as int,
                ) as u32,
                ..pre.attempts[i]
            },
        ),
        question_results: pre.question_results + results,
        ..pre
    })
}

// ============================================
// Spec and proof helpers
// ============================================
pub open spec fn opt_str_ref(o: Option<&str>) -> Option<Seq<char>> {
    match o {
        Option::Some(s) => Option::Some(s@),
        Option::None => Option::None,
    }
}

fn type_or_default_owned(o: &Option<String>) -> (r: String)
    ensures
        r@ == type_or_default(opt_str(*o)),
{
    match o {
        Option::Some(s) => s.clone(),
        Option::None => "TEXT".to_owned(),
    }
}

fn opt_ref_to_owned(o: Option<&str>) -> (r: Option<String>)
    ensures
        opt_str(r) == opt_str_ref(o),
{
    match o {
        Option::Some(s) => Option::Some(s.to_owned()),
        Option::None => Option::None,
    }
}

// Named pairwise relations, so that uses of `lemma_filter_pairwise` and
// the places that consume its conclusion speak of one function value.
pub open spec fn rel_distinct_deck() -> spec_fn(DeckV, DeckV) -> bool {
    |a: DeckV, b: DeckV| a.id != b.id
}

pub open spec fn rel_distinct_card() -> spec_fn(CardV, CardV) -> bool {
    |a: CardV, b: CardV| a.id != b.id
}

pub open spec fn rel_distinct_tag() -> spec_fn(TagV, TagV) -> bool {
    |a: TagV, b: TagV| a.id != b.id && !(a.deck_id == b.deck_id && a.name == b.name)
}

pub open spec fn rel_distinct_card_tag() -> spec_fn(CardTagLinkV, CardTagLinkV) -> bool {
    |a: CardTagLinkV, b: CardTagLinkV| !(a.card_id == b.card_id && a.tag_id == b.tag_id)
}

/// Cascade deletion of a deck preserves the store invariant, and leaves
/// no trace of the deck: no deck, card or tag of that identifier remains.
proof fn lemma_deck_delete_preserves_inv(pre: StoreView, post: StoreView, del: Seq<char>)
    requires
        inv(pre),
        post == (StoreView {
            decks: pre.decks.filter(deck_not(del)),
            cards: pre.cards.filter(card_not_of_deck(del)),
            tags: pre.tags.filter(tag_not_of_deck(del)),
            card_tags: pre.card_tags.filter(link_survives_deck_delete(pre, del)),
            ..pre
        }),
    ensures
        inv(post),
        !has_deck(post, del),
        forall|i: int| 0 <= i < post.cards.len() ==> (#[trigger] post.cards[i]).deck_id != del,
        forall|i: int| 0 <= i < post.tags.len() ==> (#[trigger] post.tags[i]).deck_id != del,
{
    broadcast use vstd::seq_lib::group_filter_ensures;

    let fd = pre.decks.filter(deck_not(del));
    let fc = pre.cards.filter(card_not_of_deck(del));
    let ft = pre.tags.filter(tag_not_of_deck(del));
    let fl = pre.card_tags.filter(link_survives_deck_delete(pre, del));
    lemma_filter_pairwise(pre.decks, deck_not(del), rel_distinct_deck());
    lemma_filter_pairwise(pre.cards, card_not_of_deck(del), rel_distinct_card());
    lemma_filter_pairwise(pre.tags, tag_not_of_deck(del), rel_distinct_tag());
    lemma_filter_pairwise(pre.card_tags, link_survives_deck_delete(pre, del), rel_distinct_card_tag());
    // Decks: pairwise distinct, statuses unchanged, no deck named `del`.
    assert forall|i: int, j: int| 0 <= i < j < post.decks.len() implies post.decks[i].id
        != post.decks[j].id by {
        assert(rel_distinct_deck()(fd[i], fd[j]));
    }
    assert forall|i: int| 0 <= i < post.decks.len() implies deck_status_ok(#[trigger] post.decks[i])
        && post.decks[i].card_count.is_none() && post.decks[i].id != del by {
        let k = choose|k: int| 0 <= k < pre.decks.len() && pre.decks[k] == fd[i];
        assert(deck_status_ok(pre.decks[k]));
        assert(deck_not(del)(fd[i]));
    }
    assert(!has_deck(post, del));
    // Cards: pairwise distinct, each of a surviving deck, with empty tags.
    assert forall|i: int, j: int| 0 <= i < j < post.cards.len() implies post.cards[i].id
        != post.cards[j].id by {
        assert(rel_distinct_card()(fc[i], fc[j]));
    }
    assert forall|i: int| 0 <= i < post.cards.len() implies has_deck(
        post,
        (#[trigger] post.cards[i]).deck_id,
    ) && post.cards[i].tags.len() == 0 && post.cards[i].deck_id != del by {
        assert(card_not_of_deck(del)(fc[i]));
        let k = choose|k: int| 0 <= k < pre.cards.len() && pre.cards[k] == fc[i];
        assert(has_deck(pre, pre.cards[k].deck_id));
        let m = choose|m: int|
            0 <= m < pre.decks.len() && pre.decks[m].id == pre.cards[k].deck_id;
        assert(deck_not(del)(pre.decks[m]));
        assert(fd.contains(pre.decks[m]));
        let w = choose|w: int| 0 <= w < fd.len() && fd[w] == pre.decks[m];
        assert(post.decks[w].id == post.cards[i].deck_id);
    }
    // Tags: pairwise distinct in identifier and in per-deck name, each
    // of a surviving deck.
    assert forall|i: int, j: int| 0 <= i < j < post.tags.len() implies post.tags[i].id
        != post.tags[j].id && !(post.tags[i].deck_id == post.tags[j].deck_id && post.tags[i].name
        == post.tags[j].name) by {
        assert(rel_distinct_tag()(ft[i], ft[j]));
    }
    assert forall|i: int| 0 <= i < post.tags.len() implies has_deck(
        post,
        (#[trigger] post.tags[i]).deck_id,
    ) && post.tags[i].deck_id != del by {
        assert(tag_not_of_deck(del)(ft[i]));
        let k = choose|k: int| 0 <= k < pre.tags.len() && pre.tags[k] == ft[i];
        assert(has_deck(pre, pre.tags[k].deck_id));
        let m = choose|m: int| 0 <= m < pre.decks.len() && pre.decks[m].id == pre.tags[k].deck_id;
        assert(deck_not(del)(pre.decks[m]));
        assert(fd.contains(pre.decks[m]));
        let w = choose|w: int| 0 <= w < fd.len() && fd[w] == pre.decks[m];
        assert(post.decks[w].id == post.tags[i].deck_id);
    }
    // Links: both ends survive, and no pair occurs twice.
    assert forall|i: int, j: int| 0 <= i < j < post.card_tags.len() implies !(post.card_tags[i].card_id
        == post.card_tags[j].card_id && post.card_tags[i].tag_id == post.card_tags[j].tag_id) by {
        assert(rel_distinct_card_tag()(fl[i], fl[j]));
    }
    assert forall|i: int| 0 <= i < post.card_tags.len() implies has_card(
        post,
        (#[trigger] post.card_tags[i]).card_id,
    ) && has_tag(post, post.card_tags[i].tag_id) by {
        assert(link_survives_deck_delete(pre, del)(fl[i]));
        let l = fl[i];
        lemma_filter_exists(pre.cards, card_not_of_deck(del), |c: CardV| c.id == l.card_id);
        lemma_filter_exists(pre.tags, tag_not_of_deck(del), |t: TagV| t.id == l.tag_id);
        assert(card_survives_deck_delete(pre, l.card_id, del));
        assert(exists|x: int|
            0 <= x < pre.cards.len() && card_not_of_deck(del)(#[trigger] pre.cards[x])
                && pre.cards[x].id == l.card_id);
        assert(tag_survives_deck_delete(pre, l.tag_id, del));
        assert(exists|x: int|
            0 <= x < pre.tags.len() && tag_not_of_deck(del)(#[trigger] pre.tags[x])
                && pre.tags[x].id == l.tag_id);
    }
    // Tables that reference only unchanged tables keep their clauses.
    assert(inv_quizzes(post));
    assert forall|i: int| 0 <= i < post.questions.len() implies has_quiz(
        post,
        (#[trigger] post.questions[i]).quiz_id,
    ) && post.questions[i].choices.len() == 0 && post.questions[i].tags.len() == 0 by {
        assert(has_quiz(pre, pre.questions[i].quiz_id));
    }
    assert forall|i: int| 0 <= i < post.choices.len() implies has_question(
        post,
        (#[trigger] post.choices[i]).question_id,
    ) by {
        assert(has_question(pre, pre.choices[i].question_id));
    }
    assert forall|i: int| 0 <= i < post.quiz_tags.len() implies has_quiz(
        post,
        (#[trigger] post.quiz_tags[i]).quiz_id,
    ) by {
        assert(has_quiz(pre, pre.quiz_tags[i].quiz_id));
    }
    assert forall|i: int| 0 <= i < post.question_tags.len() implies has_question(
        post,
        (#[trigger] post.question_tags[i]).question_id,
    ) && has_quiz_tag(post, post.question_tags[i].tag_id) by {
        assert(has_question(pre, pre.question_tags[i].question_id));
        assert(has_quiz_tag(pre, pre.question_tags[i].tag_id));
    }
    assert(inv_users(post)) by {
        match pre.active_user {
            Option::Some(uid) => {
                assert(has_user(pre, uid));
            },
            Option::None => {},
        }
    }
}

impl Store {
    fn find_quiz(&self, id: &str) -> (r: Option<usize>)
        ensures
            match r {
                Option::Some(i) => i < self@.quizzes.len() && self@.quizzes[i as int].id == id@,
                Option::None => !has_quiz(self@, id@),
            },
    {
        let n = self.quizzes.len();
        let mut i: usize = 0;
        while i < n
            invariant
                n == self.quizzes.len(),
                i <= n,
                forall|j: int| 0 <= j < i ==> self@.quizzes[j].id != id@,
            decreases n - i,
        {
            if str_eq(self.quizzes[i].id.as_str(), id) {
                return Option::Some(i);
            }
            i += 1;
        }
        Option::None
    }

    fn find_question(&self, id: &str) -> (r: Option<usize>)
        ensures
            match r {
                Option::Some(i) => i < self@.questions.len() && self@.questions[i as int].id == id@,
                Option::None => !has_question(self@, id@),
            },
    {
        let n = self.questions.len();
        let mut i: usize = 0;
        while i < n
            invariant
                n == self.questions.len(),
                i <= n,
                forall|j: int| 0 <= j < i ==> self@.questions[j].id != id@,
            decreases n - i,
        {
            if str_eq(self.questions[i].id.as_str(), id) {
                return Option::Some(i);
            }
            i += 1;
        }
        Option::None
    }

    fn find_choice(&self, id: &str) -> (r: Option<usize>)
        ensures
            match r {
                Option::Some(i) => i < self@.choices.len() && self@.choices[i as int].id == id@,
                Option::None => !has_choice(self@, id@),
            },
    {
        let n = self.choices.len();
        let mut i: usize = 0;
        while i < n
            invariant
                n == self.choices.len(),
                i <= n,
                forall|j: int| 0 <= j < i ==> self@.choices[j].id != id@,
            decreases n - i,
        {
            if str_eq(self.choices[i].id.as_str(), id) {
                return Option::Some(i);
            }
            i += 1;
        }
        Option::None
    }

    fn find_quiz_tag(&self, id: &str) -> (r: Option<usize>)
        ensures
            match r {
                Option::Some(i) => i < self@.quiz_tags.len() && self@.quiz_tags[i as int].id == id@,
                Option::None => !has_quiz_tag(self@, id@),
            },
    {
        let n = self.quiz_tags.len();
        let mut i: usize = 0;
        while i < n
            invariant
                n == self.quiz_tags.len(),
                i <= n,
                forall|j: int| 0 <= j < i ==> self@.quiz_tags[j].id != id@,
            decreases n - i,
        {
            if str_eq(self.quiz_tags[i].id.as_str(), id) {
                return Option::Some(i);
            }
            i += 1;
        }
        Option::None
    }

    /// The choices of one question, in store order.
    pub fn get_choices_for_question(&self, question_id: &str) -> (r: Vec<Choice>)
        requires
            self.wf(),
        ensures
            r@.map_values(|c: Choice| c@) == choices_of_question(self@, question_id@),
    {
        let n = self.choices.len();
        let mut r: Vec<Choice> = Vec::new();
        let mut i: usize = 0;
        while i < n
            invariant
                n == self.choices.len(),
                i <= n,
                r@.map_values(|c: Choice| c@) == self@.choices.take(i as int).filter(
                    choice_of_question(question_id@),
                ),
            decreases n - i,
        {
            proof {
                self@.choices.lemma_take_succ_push(i as int);
                lemma_filter_push(
                    self@.choices.take(i as int),
                    self@.choices[i as int],
                    choice_of_question(question_id@),
                );
            }
            if str_eq(self.choices[i].question_id.as_str(), question_id) {
                let c = self.choices[i].clone();
                proof {
                    assert(r@.push(c).map_values(|x: Choice| x@) =~= r@.map_values(
                        |x: Choice| x@,
                    ).push(c@));
                }
                r.push(c);
            }
            i += 1;
        }
        proof {
            self@.choices.lemma_take_len();
        }
        r
    }

    /// The tags attached to one question: identifier and name per link.
    pub fn get_tags_for_question(&self, question_id: &str) -> (r: Vec<QuestionTag>)
        requires
            self.wf(),
        ensures
            r@.map_values(|t: QuestionTag| t@) == tags_of_question(self@, question_id@),
    {
        let n = self.question_tags.len();
        let mut r: Vec<QuestionTag> = Vec::new();
        let mut i: usize = 0;
        while i < n
            invariant
                self.wf(),
                n == self.question_tags.len(),
                i <= n,
                r@.map_values(|t: QuestionTag| t@) == self@.question_tags.take(i as int).filter(
                    qlink_of_question(question_id@),
                ).map_values(question_tag_of_link(self@)),
            decreases n - i,
        {
            let ghost lv = self@.question_tags[i as int];
            proof {
                self@.question_tags.lemma_take_succ_push(i as int);
                lemma_filter_push(
                    self@.question_tags.take(i as int),
                    self@.question_tags[i as int],
                    qlink_of_question(question_id@),
                );
            }
            if str_eq(self.question_tags[i].question_id.as_str(), question_id) {
                match self.find_quiz_tag(self.question_tags[i].tag_id.as_str()) {
                    Option::Some(ti) => {
                        let t = QuestionTag {
                            id: self.question_tags[i].tag_id.clone(),
                            name: self.quiz_tags[ti].name.clone(),
                        };
                        proof {
                            let k = choose|k: int|
                                0 <= k < self@.quiz_tags.len() && self@.quiz_tags[k].id
                                    == lv.tag_id;
                            assert(k == ti as int);
                            assert(t@ == question_tag_of_link(self@)(lv));
                            assert(r@.push(t).map_values(|x: QuestionTag| x@) =~= r@.map_values(
                                |x: QuestionTag| x@,
                            ).push(t@));
                        }
                        r.push(t);
                    },
                    Option::None => {
                        proof {
                            assert(has_quiz_tag(self@, lv.tag_id));
                            assert(false);
                        }
                    },
                }
            }
            i += 1;
        }
        proof {
            self@.question_tags.lemma_take_len();
        }
        r
    }

    /// The questions of one quiz, position-sorted, each with its choices
    /// and tags.
    pub fn get_questions_for_quiz(&self, quiz_id: &str) -> (r: Vec<Question>)
        requires
            self.wf(),
        ensures
            r@.map_values(|q: Question| q@) == quiz_questions_view(self@, quiz_id@),
    {
        // Collect the quiz's rows in store order.
        let n = self.questions.len();
        let mut rows: Vec<Question> = Vec::new();
        let mut i: usize = 0;
        while i < n
            invariant
                self.wf(),
                n == self.questions.len(),
                i <= n,
                rows@.map_values(|q: Question| q@) == self@.questions.take(i as int).filter(
                    question_of_quiz(quiz_id@),
                ),
            decreases n - i,
        {
            proof {
                self@.questions.lemma_take_succ_push(i as int);
                lemma_filter_push(
                    self@.questions.take(i as int),
                    self@.questions[i as int],
                    question_of_quiz(quiz_id@),
                );
            }
            if str_eq(self.questions[i].quiz_id.as_str(), quiz_id) {
                let q = self.questions[i].clone();
                proof {
                    assert(rows@.push(q).map_values(|x: Question| x@) =~= rows@.map_values(
                        |x: Question| x@,
                    ).push(q@));
                }
                rows.push(q);
            }
            i += 1;
        }
        proof {
            self@.questions.lemma_take_len();
        }
        let ghost unsorted = questions_of_quiz(self@, quiz_id@);
        // Sort by position, stably.
        let m = rows.len();
        let mut sorted: Vec<Question> = Vec::new();
        let mut i: usize = 0;
        while i < m
            invariant
                m == rows.len(),
                rows@.map_values(|q: Question| q@) == unsorted,
                i <= m,
                sorted@.map_values(|q: Question| q@) == sort_by_position(unsorted.take(i as int)),
            decreases m - i,
        {
            let q = rows[i].clone();
            proof {
                assert(unsorted.take(i as int + 1).drop_last() =~= unsorted.take(i as int));
                assert(unsorted.take(i as int + 1).last() == q@);
            }
            insert_question_sorted(&mut sorted, q);
            i += 1;
        }
        proof {
            unsorted.lemma_take_len();
        }
        // Join in choices and tags.
        let ghost sorted_rows = sort_by_position(unsorted);
        proof {
            lemma_sort_by_position_len(unsorted);
        }
        let mut r: Vec<Question> = Vec::new();
        let mut i: usize = 0;
        while i < m
            invariant
                self.wf(),
                m == sorted.len(),
                sorted@.map_values(|q: Question| q@) == sorted_rows,
                i <= m,
                r@.len() == i,
                forall|j: int|
                    0 <= j < i ==> r@[j]@ == populated_question(self@, sorted_rows[j]),
            decreases m - i,
        {
            let choices = self.get_choices_for_question(sorted[i].id.as_str());
            let tags = self.get_tags_for_question(sorted[i].id.as_str());
            let mut q = sorted[i].clone();
            q.choices = choices;
            q.tags = tags;
            proof {
                assert(q@ =~= populated_question(self@, sorted_rows[i as int]));
            }
            r.push(q);
            i += 1;
        }
        proof {
            assert(r@.map_values(|q: Question| q@) =~= quiz_questions_view(self@, quiz_id@));
        }
        r
    }

    /// Fetches one question with its choices and tags; `NotFound`
    /// exactly when the identifier matches nothing.
    pub fn get_question(&self, question_id: &str) -> (r: Result<Question, AppError>)
        requires
            self.wf(),
        ensures
            r matches Ok(q) ==> exists|i: int|
                0 <= i < self@.questions.len() && self@.questions[i].id == question_id@ && q@
                    == populated_question(self@, self@.questions[i]),
            r is Ok <==> has_question(self@, question_id@),
            r is Err ==> r == Result::<Question, AppError>::Err(AppError::NotFound),
    {
        match self.find_question(question_id) {
            Option::Some(i) => {
                let choices = self.get_choices_for_question(question_id);
                let tags = self.get_tags_for_question(question_id);
                let mut q = self.questions[i].clone();
                q.choices = choices;
                q.tags = tags;
                proof {
                    assert(q@ =~= populated_question(self@, self@.questions[i as int]));
                }
                Result::Ok(q)
            },
            Option::None => Result::Err(AppError::NotFound),
        }
    }

    /// How many questions one quiz holds.
    fn count_questions_for(&self, quiz_id: &str) -> (n: u64)
        ensures
            n == questions_of_quiz(self@, quiz_id@).len(),
    {
        let m = self.questions.len();
        let mut n: u64 = 0;
        let mut i: usize = 0;
        while i < m
            invariant
                m == self.questions.len(),
                i <= m,
                n == self@.questions.take(i as int).filter(question_of_quiz(quiz_id@)).len(),
                n <= i,
            decreases m - i,
        {
            proof {
                self@.questions.lemma_take_succ_push(i as int);
                lemma_filter_push(
                    self@.questions.take(i as int),
                    self@.questions[i as int],
                    question_of_quiz(quiz_id@),
                );
            }
            if str_eq(self.questions[i].quiz_id.as_str(), quiz_id) {
                n += 1;
            }
            i += 1;
        }
        proof {
            self@.questions.lemma_take_len();
        }
        n
    }

    /// Fetches a quiz with its questions loaded and counted; `NotFound`
    /// exactly when the identifier matches nothing.
    pub fn get_quiz(&self, quiz_id: &str) -> (r: Result<Quiz, AppError>)
        requires
            self.wf(),
        ensures
            r matches Ok(qz) ==> exists|i: int|
                0 <= i < self@.quizzes.len() && self@.quizzes[i].id == quiz_id@ && qz@ == (QuizV {
                    questions: quiz_questions_view(self@, quiz_id@),
                    question_count: Option::Some(questions_of_quiz(self@, quiz_id@).len() as u64),
                    ..self@.quizzes[i]
                }),
            r is Ok <==> has_quiz(self@, quiz_id@),
            r is Err ==> r == Result::<Quiz, AppError>::Err(AppError::NotFound),
    {
        match self.find_quiz(quiz_id) {
            Option::Some(i) => {
                let questions = self.get_questions_for_quiz(quiz_id);
                let count = self.count_questions_for(quiz_id);
                let mut qz = self.quizzes[i].clone();
                qz.questions = questions;
                qz.question_count = Option::Some(count);
                proof {
                    assert(qz@ =~= (QuizV {
                        questions: quiz_questions_view(self@, quiz_id@),
                        question_count: Option::Some(
                            questions_of_quiz(self@, quiz_id@).len() as u64,
                        ),
                        ..self@.quizzes[i as int]
                    }));
                }
                Result::Ok(qz)
            },
            Option::None => Result::Err(AppError::NotFound),
        }
    }

    /// Lists every quiz, most recently created first, each carrying its
    /// derived question count.
    pub fn get_all_quizzes(&self) -> (r: Vec<Quiz>)
        requires
            self.wf(),
        ensures
            r@.map_values(|x: Quiz| x@) == sort_by_created(
                self@.quizzes.map_values(|qz: QuizV| counted_quiz(self@, qz)),
            ),
            r@.len() == self@.quizzes.len(),
    {
        let n = self.quizzes.len();
        let ghost counted = self@.quizzes.map_values(|qz: QuizV| counted_quiz(self@, qz));
        let mut r: Vec<Quiz> = Vec::new();
        let mut i: usize = 0;
        while i < n
            invariant
                self.wf(),
                n == self.quizzes.len(),
                counted == self@.quizzes.map_values(|qz: QuizV| counted_quiz(self@, qz)),
                i <= n,
                r@.map_values(|x: Quiz| x@) == sort_by_created(counted.take(i as int)),
            decreases n - i,
        {
            let cnt = self.count_questions_for(self.quizzes[i].id.as_str());
            let mut qz = self.quizzes[i].clone();
            qz.question_count = Option::Some(cnt);
            proof {
                assert(qz@ =~= counted_quiz(self@, self@.quizzes[i as int]));
                assert(counted.take(i as int + 1).drop_last() =~= counted.take(i as int));
                assert(counted.take(i as int + 1).last() == counted[i as int]);
                assert(counted[i as int] == qz@);
            }
            insert_quiz_sorted(&mut r, qz);
            i += 1;
        }
        proof {
            assert(counted.take(n as int) =~= counted);
            lemma_sort_by_created_len(counted);
        }
        r
    }
}

/// A quiz as listings return it: its live question count filled in.
pub open spec fn counted_quiz(v: StoreView, qz: QuizV) -> QuizV {
    QuizV { question_count: Option::Some(questions_of_quiz(v, qz.id).len() as u64), ..qz }
}

/// Insertion step of the quiz listing's order: most recently created
/// first; an equal creation time keeps store order.
pub open spec fn insert_by_created(qz: QuizV, s: Seq<QuizV>) -> Seq<QuizV>
    decreases s.len(),
{
    if s.len() == 0 {
        seq![qz]
    } else if qz.created_at > s[0].created_at {
        seq![qz] + s
    } else {
        seq![s[0]] + insert_by_created(qz, s.drop_first())
    }
}

/// Stable sort of quizzes by creation time, newest first.
pub open spec fn sort_by_created(s: Seq<QuizV>) -> Seq<QuizV>
    decreases s.len(),
{
    if s.len() == 0 {
        Seq::empty()
    } else {
        insert_by_created(s.last(), sort_by_created(s.drop_last()))
    }
}

pub proof fn lemma_insert_by_created_len(qz: QuizV, s: Seq<QuizV>)
    ensures
        insert_by_created(qz, s).len() == s.len() + 1,
    decreases s.len(),
{
    if s.len() > 0 && !(qz.created_at > s[0].created_at) {
        lemma_insert_by_created_len(qz, s.drop_first());
    }
}

pub proof fn lemma_sort_by_created_len(s: Seq<QuizV>)
    ensures
        sort_by_created(s).len() == s.len(),
    decreases s.len(),
{
    if s.len() > 0 {
        lemma_sort_by_created_len(s.drop_last());
        lemma_insert_by_created_len(s.last(), sort_by_created(s.drop_last()));
    }
}

/// Skipping a sorted prefix whose creation times are not below the
/// inserted quiz's commutes with insertion.
proof fn lemma_insert_by_created_skip(qz: QuizV, s: Seq<QuizV>, idx: int)
    requires
        0 <= idx <= s.len(),
        forall|k: int| 0 <= k < idx ==> !(qz.created_at > (#[trigger] s[k]).created_at),
    ensures
        insert_by_created(qz, s) == s.take(idx) + insert_by_created(qz, s.skip(idx)),
    decreases idx,
{
    if idx == 0 {
        assert(s.skip(0) == s);
        assert(s.take(0) + insert_by_created(qz, s) =~= insert_by_created(qz, s));
    } else {
        assert(s.len() > 0);
        assert(!(qz.created_at > s[0].created_at));
        lemma_insert_by_created_skip(qz, s.drop_first(), idx - 1);
        assert(s.drop_first().take(idx - 1) =~= s.take(idx).drop_first());
        assert(s.drop_first().skip(idx - 1) =~= s.skip(idx));
        assert(seq![s[0]] + (s.drop_first().take(idx - 1) + insert_by_created(
            qz,
            s.drop_first().skip(idx - 1),
        )) =~= s.take(idx) + insert_by_created(qz, s.skip(idx)));
    }
}

/// Inserts one counted quiz into a listing already sorted newest
/// creation first.
fn insert_quiz_sorted(r: &mut Vec<Quiz>, qz: Quiz)
    ensures
        final(r)@.map_values(|x: Quiz| x@) == insert_by_created(
            qz@,
            old(r)@.map_values(|x: Quiz| x@),
        ),
{
    let ghost s = r@.map_values(|x: Quiz| x@);
    let n = r.len();
    let mut idx: usize = 0;
    while idx < n && !(qz.created_at > r[idx].created_at)
        invariant
            n == r.len(),
            s == r@.map_values(|x: Quiz| x@),
            idx <= n,
            forall|k: int| 0 <= k < idx ==> !(qz@.created_at > (#[trigger] s[k]).created_at),
        decreases n - idx,
    {
        idx += 1;
    }
    proof {
        lemma_insert_by_created_skip(qz@, s, idx as int);
        if idx < n {
            assert(s.skip(idx as int)[0] == s[idx as int]);
            assert(insert_by_created(qz@, s.skip(idx as int)) == seq![qz@] + s.skip(idx as int));
        } else {
            assert(s.skip(idx as int).len() == 0);
        }
    }
    r.insert(idx, qz);
    proof {
        assert(r@.map_values(|x: Quiz| x@) =~= s.take(idx as int) + insert_by_created(
            qz@,
            s.skip(idx as int),
        ));
    }
}

impl Store {
    /// Creates a quiz under a caller-supplied identifier and creation
    /// time. Succeeds exactly when the identifier is free.
    pub fn create_quiz_with_id(&mut self, id: String, now: i64, request: &CreateQuizRequest) -> (r:
        Result<Quiz, AppError>)
        requires
            old(self).wf(),
        ensures
            final(self).wf(),
            r matches Ok(qz) ==> quiz_created(old(self)@, final(self)@, qz@, *request) && qz@.id
                == id@ && qz@.created_at == now as int,
            r is Ok <==> !has_quiz(old(self)@, id@),
            r is Err ==> final(self)@ == old(self)@ && r == Result::<Quiz, AppError>::Err(
                AppError::Store,
            ),
    {
        if self.find_quiz(id.as_str()).is_some() {
            return Result::Err(AppError::Store);
        }
        let shuffle = match request.shuffle_questions {
            Option::Some(b) => b,
            Option::None => false,
        };
        let qz = Quiz {
            id,
            name: request.name.clone(),
            description: clone_opt_string(&request.description),
            shuffle_questions: shuffle,
            created_at: now,
            updated_at: now,
            questions: Vec::new(),
            question_count: Option::None,
        };
        let ghost pre = self@;
        let mut ret = qz.clone();
        self.quizzes.push(qz);
        ret.question_count = Option::Some(0);
        proof {
            assert(self@ =~~= (StoreView {
                quizzes: pre.quizzes.push(QuizV { question_count: Option::None, ..ret@ }),
                ..pre
            }));
            lemma_push_preserves_membership(pre, self@);
        }
        Result::Ok(ret)
    }

    /// Creates a quiz, generating a fresh identifier and reading the
    /// clock.
    pub fn create_quiz(&mut self, request: &CreateQuizRequest) -> (r: Result<Quiz, AppError>)
        requires
            old(self).wf(),
        ensures
            final(self).wf(),
            r matches Ok(qz) ==> quiz_created(old(self)@, final(self)@, qz@, *request),
            r is Err ==> final(self)@ == old(self)@ && r == Result::<Quiz, AppError>::Err(
                AppError::Store,
            ),
    {
        let id = fresh_id();
        let now = now_seconds();
        self.create_quiz_with_id(id, now, request)
    }

    /// Edits a quiz's name, description and shuffle flag under a
    /// caller-supplied update time; returns the quiz with its questions
    /// loaded. Succeeds exactly when the quiz exists.
    pub fn update_quiz_at(&mut self, quiz_id: &str, request: &UpdateQuizRequest, now: i64) -> (r:
        Result<Quiz, AppError>)
        requires
            old(self).wf(),
        ensures
            final(self).wf(),
            r matches Ok(qz) ==> (exists|i: int|
                quiz_updated(old(self)@, final(self)@, i, *request, now as int) && old(
                    self,
                )@.quizzes[i].id == quiz_id@) && (exists|i: int|
                0 <= i < final(self)@.quizzes.len() && final(self)@.quizzes[i].id == quiz_id@
                    && qz@ == (QuizV {
                    questions: quiz_questions_view(final(self)@, quiz_id@),
                    question_count: Option::Some(
                        questions_of_quiz(final(self)@, quiz_id@).len() as u64,
                    ),
                    ..final(self)@.quizzes[i]
                })),
            r is Ok <==> has_quiz(old(self)@, quiz_id@),
            r is Err ==> final(self)@ == old(self)@ && r == Result::<Quiz, AppError>::Err(
                AppError::NotFound,
            ),
    {
        let idx = match self.find_quiz(quiz_id) {
            Option::Some(i) => i,
            Option::None => {
                return Result::Err(AppError::NotFound);
            },
        };
        let shuffle = match request.shuffle_questions {
            Option::Some(b) => b,
            Option::None => false,
        };
        let current = &self.quizzes[idx];
        let qz = Quiz {
            id: current.id.clone(),
            name: request.name.clone(),
            description: clone_opt_string(&request.description),
            shuffle_questions: shuffle,
            created_at: current.created_at,
            updated_at: now,
            questions: Vec::new(),
            question_count: Option::None,
        };
        let ghost pre = self@;
        self.quizzes.set(idx, qz);
        proof {
            assert(self@ =~~= (StoreView {
                quizzes: pre.quizzes.update(
                    idx as int,
                    QuizV {
                        name: request.name@,
                        description: opt_str(request.description),
                        shuffle_questions: (request.shuffle_questions == Option::<bool>::Some(
                            true,
                        )),
                        updated_at: now as int,
                        ..pre.quizzes[idx as int]
                    },
                ),
                ..pre
            }));
            lemma_update_quiz_same_id_preserves_inv(pre, self@, idx as int);
            assert(quiz_updated(pre, self@, idx as int, *request, now as int));
        }
        self.get_quiz(quiz_id)
    }

    /// Edits a quiz, reading the clock for the update time.
    pub fn update_quiz(&mut self, quiz_id: &str, request: &UpdateQuizRequest) -> (r: Result<
        Quiz,
        AppError,
    >)
        requires
            old(self).wf(),
        ensures
            final(self).wf(),
            r matches Ok(qz) ==> exists|i: int, now: int|
                quiz_updated(old(self)@, final(self)@, i, *request, now) && old(self)@.quizzes[
                    i
                ].id == quiz_id@,
            r is Ok <==> has_quiz(old(self)@, quiz_id@),
            r is Err ==> final(self)@ == old(self)@ && r == Result::<Quiz, AppError>::Err(
                AppError::NotFound,
            ),
    {
        let now = now_seconds();
        self.update_quiz_at(quiz_id, request, now)
    }

    /// Creates a choice for a question under a caller-supplied
    /// identifier. Succeeds exactly when the question exists and the
    /// identifier is free.
    pub fn create_choice_with_id(
        &mut self,
        id: String,
        question_id: &str,
        request: &CreateChoiceRequest,
        position: i32,
    ) -> (r: Result<Choice, AppError>)
        requires
            old(self).wf(),
        ensures
            final(self).wf(),
            r matches Ok(c) ==> choice_matches_request(c@, question_id@, *request, position)
                && c@.id == id@ && !has_choice(old(self)@, id@) && final(self)@ == (StoreView {
                choices: old(self)@.choices.push(c@),
                ..old(self)@
            }),
            r is Ok <==> (has_question(old(self)@, question_id@) && !has_choice(old(self)@, id@)),
            r is Err ==> final(self)@ == old(self)@,
            !has_question(old(self)@, question_id@) ==> r == Result::<Choice, AppError>::Err(
                AppError::NotFound,
            ),
            r is Err && has_question(old(self)@, question_id@) ==> r == Result::<
                Choice,
                AppError,
            >::Err(AppError::Store),
    {
        if self.find_question(question_id).is_none() {
            return Result::Err(AppError::NotFound);
        }
        if self.find_choice(id.as_str()).is_some() {
            return Result::Err(AppError::Store);
        }
        let c = Choice {
            id,
            question_id: question_id.to_owned(),
            text: request.text.clone(),
            is_correct: request.is_correct,
            position,
        };
        let ghost pre = self@;
        let ghost cv = c@;
        self.choices.push(c.clone());
        proof {
            assert(self@ =~= (StoreView { choices: pre.choices.push(cv), ..pre }));
            lemma_push_preserves_membership(pre, self@);
        }
        Result::Ok(c)
    }

    /// Creates a choice, generating a fresh identifier.
    pub fn create_choice(
        &mut self,
        question_id: &str,
        request: &CreateChoiceRequest,
        position: i32,
    ) -> (r: Result<Choice, AppError>)
        requires
            old(self).wf(),
        ensures
            final(self).wf(),
            r matches Ok(c) ==> choice_matches_request(c@, question_id@, *request, position)
                && final(self)@ == (StoreView {
                choices: old(self)@.choices.push(c@),
                ..old(self)@
            }),
            r is Err ==> final(self)@ == old(self)@,
            !has_question(old(self)@, question_id@) ==> r == Result::<Choice, AppError>::Err(
                AppError::NotFound,
            ),
    {
        let id = fresh_id();
        self.create_choice_with_id(id, question_id, request, position)
    }

    /// Replaces the whole choice block of a question: its existing
    /// choices are deleted and the requested ones created in order at
    /// positions 0, 1, 2, ... Fresh identifiers are drawn and vetted
    /// before anything is touched, so failure leaves the store
    /// unchanged.
    pub fn update_choices_for_question(
        &mut self,
        question_id: &str,
        requests: &Vec<CreateChoiceRequest>,
    ) -> (r: Result<(), AppError>)
        requires
            old(self).wf(),
        ensures
            final(self).wf(),
            r is Ok ==> exists|cs: Seq<ChoiceV>|
                {
                    &&& choices_match_requests(cs, question_id@, requests@)
                    &&& (forall|i: int|
                        0 <= i < cs.len() ==> !has_choice(old(self)@, (#[trigger] cs[i]).id))
                    &&& (forall|i: int, j: int| 0 <= i < j < cs.len() ==> cs[i].id != cs[j].id)
                    &&& final(self)@ == (StoreView {
                        choices: old(self)@.choices.filter(choice_not_of_question(question_id@))
                            + cs,
                        ..old(self)@
                    })
                },
            r is Ok ==> has_question(old(self)@, question_id@) && requests@.len() <= i32::MAX,
            r is Err ==> final(self)@ == old(self)@,
            !has_question(old(self)@, question_id@) ==> r == Result::<(), AppError>::Err(
                AppError::NotFound,
            ),
            r is Err && has_question(old(self)@, question_id@) ==> r == Result::<
                (),
                AppError,
            >::Err(AppError::Store),
    {
        match self.find_question(question_id) {
            Option::Some(_) => {},
            Option::None => {
                return Result::Err(AppError::NotFound);
            },
        }
        proof {
            assert(has_question(self@, question_id@));
        }
        let n = requests.len();
        if n > (i32::MAX as usize) {
            return Result::Err(AppError::Store);
        }
        // Draw and vet the new identifiers before touching the store.
        let mut cids: Vec<String> = Vec::new();
        let mut k: usize = 0;
        while k < n
            invariant
                self@ == old(self)@,
                old(self).wf(),
                k <= n,
                cids@.len() == k,
            decreases n - k,
        {
            cids.push(fresh_id());
            k += 1;
        }
        let mut k: usize = 0;
        while k < n
            invariant
                self@ == old(self)@,
                old(self).wf(),
                has_question(old(self)@, question_id@),
                k <= n,
                cids@.len() == n,
                forall|a: int| 0 <= a < k ==> !has_choice(self@, (#[trigger] cids@[a])@),
                forall|a: int, b: int| 0 <= a < b < k ==> cids@[a]@ != cids@[b]@,
            decreases n - k,
        {
            if self.find_choice(cids[k].as_str()).is_some() {
                return Result::Err(AppError::Store);
            }
            let mut j: usize = 0;
            while j < k
                invariant
                    self@ == old(self)@,
                    old(self).wf(),
                    has_question(old(self)@, question_id@),
                    j <= k,
                    k < cids@.len(),
                    forall|a: int| 0 <= a < j ==> cids@[a]@ != cids@[k as int]@,
                decreases k - j,
            {
                if str_eq(cids[j].as_str(), cids[k].as_str()) {
                    return Result::Err(AppError::Store);
                }
                j += 1;
            }
            k += 1;
        }
        let ghost pre = self@;
        // Delete the existing block.
        let mut kept: Vec<Choice> = Vec::new();
        let nc = self.choices.len();
        let mut i: usize = 0;
        while i < nc
            invariant
                self@ == pre,
                nc == self.choices.len(),
                i <= nc,
                kept@.map_values(|x: Choice| x@) == pre.choices.take(i as int).filter(
                    choice_not_of_question(question_id@),
                ),
            decreases nc - i,
        {
            proof {
                pre.choices.lemma_take_succ_push(i as int);
                lemma_filter_push(
                    pre.choices.take(i as int),
                    pre.choices[i as int],
                    choice_not_of_question(question_id@),
                );
            }
            if !str_eq(self.choices[i].question_id.as_str(), question_id) {
                kept.push(self.choices[i].clone());
            }
            i += 1;
        }
        proof {
            pre.choices.lemma_take_len();
        }
        let ghost fc = pre.choices.filter(choice_not_of_question(question_id@));
        self.choices = kept;
        proof {
            assert(fc + Seq::<ChoiceV>::empty() =~= fc);
            assert(self@ =~= (StoreView { choices: fc, ..pre }));
        }
        // Create the new block.
        let mut newc: Vec<Choice> = Vec::new();
        proof {
            assert(newc@.map_values(|c: Choice| c@) =~= Seq::<ChoiceV>::empty());
        }
        let mut k: usize = 0;
        while k < n
            invariant
                n == requests.len(),
                n <= i32::MAX,
                cids@.len() == n,
                forall|a: int| 0 <= a < n ==> !has_choice(pre, (#[trigger] cids@[a])@),
                forall|a: int, b: int| 0 <= a < b < n ==> cids@[a]@ != cids@[b]@,
                k <= n,
                newc@.len() == k,
                forall|a: int| 0 <= a < k ==> (#[trigger] newc@[a])@.id == cids@[a]@,
                forall|a: int|
                    0 <= a < k ==> choice_matches_request(
                        (#[trigger] newc@[a])@,
                        question_id@,
                        requests@[a],
                        a as i32,
                    ),
                self@ == (StoreView {
                    choices: fc + newc@.map_values(|c: Choice| c@),
                    ..pre
                }),
            decreases n - k,
        {
            let c = Choice {
                id: cids[k].clone(),
                question_id: question_id.to_owned(),
                text: requests[k].text.clone(),
                is_correct: requests[k].is_correct,
                position: k as i32,
            };
            let ghost prevc = self@.choices;
            self.choices.push(c.clone());
            proof {
                assert(self@.choices =~= prevc.push(c@));
                assert((newc@.push(c)).map_values(|x: Choice| x@) =~= newc@.map_values(
                    |x: Choice| x@,
                ).push(c@));
                assert(self@.choices =~= fc + newc@.push(c).map_values(|x: Choice| x@));
                assert(self@ =~= (StoreView { choices: self@.choices, ..pre }));
            }
            newc.push(c);
            k += 1;
        }
        let ghost cs = newc@.map_values(|x: Choice| x@);
        proof {
            assert forall|a: int| 0 <= a < cs.len() implies choice_matches_request(
                #[trigger] cs[a],
                question_id@,
                requests@[a],
                a as i32,
            ) && !has_choice(pre, cs[a].id) && cs[a].id == cids@[a]@ by {
                assert(cs[a] == newc@[a]@);
                assert(newc@[a]@.id == cids@[a]@);
            }
            assert(choices_match_requests(cs, question_id@, requests@));
            assert forall|a: int, b: int| 0 <= a < b < cs.len() implies cs[a].id != cs[b].id by {
                assert(cs[a].id == cids@[a]@ && cs[b].id == cids@[b]@);
            }
            lemma_choices_replace_preserves_inv(pre, self@, question_id@, cs);
            assert({
                &&& choices_match_requests(cs, question_id@, requests@)
                &&& (forall|i: int|
                    0 <= i < cs.len() ==> !has_choice(old(self)@, (#[trigger] cs[i]).id))
                &&& (forall|i: int, j: int| 0 <= i < j < cs.len() ==> cs[i].id != cs[j].id)
                &&& self@ == (StoreView {
                    choices: old(self)@.choices.filter(choice_not_of_question(question_id@)) + cs,
                    ..old(self)@
                })
            });
        }
        Result::Ok(())
    }

    /// The next free position in a quiz: one past the greatest in use.
    fn next_free_position(&self, quiz_id: &str) -> (r: Option<i32>)
        ensures
            r matches Some(p) ==> p == next_position(self@, quiz_id@),
            r is None ==> next_position(self@, quiz_id@) > i32::MAX,
    {
        let n = self.questions.len();
        let mut m: i32 = -1;
        let mut i: usize = 0;
        while i < n
            invariant
                n == self.questions.len(),
                i <= n,
                m == max_position(self@.questions.take(i as int).filter(question_of_quiz(quiz_id@))),
            decreases n - i,
        {
            let ghost fseq = self@.questions.take(i as int).filter(question_of_quiz(quiz_id@));
            proof {
                self@.questions.lemma_take_succ_push(i as int);
                lemma_filter_push(
                    self@.questions.take(i as int),
                    self@.questions[i as int],
                    question_of_quiz(quiz_id@),
                );
            }
            if str_eq(self.questions[i].quiz_id.as_str(), quiz_id) {
                proof {
                    assert(fseq.push(self@.questions[i as int]).drop_last() =~= fseq);
                }
                if self.questions[i].position > m {
                    m = self.questions[i].position;
                }
            }
            i += 1;
        }
        proof {
            self@.questions.lemma_take_len();
        }
        if m == i32::MAX {
            Option::None
        } else {
            Option::Some(m + 1)
        }
    }

    /// Creates a question (with any requested choices) under a
    /// caller-supplied identifier and creation time, at the next free
    /// position of its quiz. A request without choices succeeds exactly
    /// when the deterministic preconditions hold; one with choices can
    /// fail beyond them only when a drawn choice identifier collides.
    pub fn create_question_with_id(
        &mut self,
        id: String,
        quiz_id: &str,
        request: &CreateQuestionRequest,
        now: i64,
    ) -> (r: Result<Question, AppError>)
        requires
            old(self).wf(),
        ensures
            final(self).wf(),
            r matches Ok(q) ==> question_created(old(self)@, final(self)@, q@, quiz_id@, *request)
                && q@.id == id@ && q@.created_at == now as int,
            r is Ok ==> question_create_ok(old(self)@, id@, quiz_id@, *request),
            request.choices is None ==> (r is Ok <==> question_create_ok(
                old(self)@,
                id@,
                quiz_id@,
                *request,
            )),
            r is Err ==> final(self)@ == old(self)@,
            !has_quiz(old(self)@, quiz_id@) ==> r == Result::<Question, AppError>::Err(
                AppError::NotFound,
            ),
            r is Err && has_quiz(old(self)@, quiz_id@) ==> r == Result::<Question, AppError>::Err(
                AppError::Store,
            ),
    {
        match self.find_quiz(quiz_id) {
            Option::Some(_) => {},
            Option::None => {
                return Result::Err(AppError::NotFound);
            },
        }
        proof {
            assert(has_quiz(self@, quiz_id@));
        }
        if self.find_question(id.as_str()).is_some() {
            return Result::Err(AppError::Store);
        }
        let position = match self.next_free_position(quiz_id) {
            Option::Some(p) => p,
            Option::None => {
                return Result::Err(AppError::Store);
            },
        };
        // Generate and vet identifiers for the requested choices before
        // touching the store, so that failure leaves it unchanged.
        let n_choices: usize = match &request.choices {
            Option::Some(cs) => cs.len(),
            Option::None => 0,
        };
        if n_choices > (i32::MAX as usize) {
            return Result::Err(AppError::Store);
        }
        let mut cids: Vec<String> = Vec::new();
        let mut k: usize = 0;
        while k < n_choices
            invariant
                self@ == old(self)@,
                old(self).wf(),
                has_quiz(old(self)@, quiz_id@),
                k <= n_choices,
                cids@.len() == k,
            decreases n_choices - k,
        {
            cids.push(fresh_id());
            k += 1;
        }
        let mut k: usize = 0;
        while k < n_choices
            invariant
                self@ == old(self)@,
                old(self).wf(),
                has_quiz(old(self)@, quiz_id@),
                request.choices is None ==> n_choices == 0,
                k <= n_choices,
                cids@.len() == n_choices,
                forall|a: int| 0 <= a < k ==> !has_choice(self@, (#[trigger] cids@[a])@),
                forall|a: int, b: int| 0 <= a < b < k ==> cids@[a]@ != cids@[b]@,
            decreases n_choices - k,
        {
            if self.find_choice(cids[k].as_str()).is_some() {
                return Result::Err(AppError::Store);
            }
            let mut j: usize = 0;
            while j < k
                invariant
                    self@ == old(self)@,
                    old(self).wf(),
                    has_quiz(old(self)@, quiz_id@),
                    request.choices is None ==> n_choices == 0,
                    j <= k,
                    k < n_choices,
                    k < cids@.len(),
                    forall|a: int| 0 <= a < j ==> cids@[a]@ != cids@[k as int]@,
                decreases k - j,
            {
                if str_eq(cids[j].as_str(), cids[k].as_str()) {
                    return Result::Err(AppError::Store);
                }
                j += 1;
            }
            k += 1;
        }
        let content_type = type_or_default_owned(&request.content_type);
        let multiple = match request.multiple_answers {
            Option::Some(b) => b,
            Option::None => false,
        };
        let qtype = QuestionType::from_str(request.question_type.as_str());
        let stored = Question {
            id,
            quiz_id: quiz_id.to_owned(),
            question_type: qtype,
            content: request.content.clone(),
            content_type,
            content_language: clone_opt_string(&request.content_language),
            correct_answer: clone_opt_string(&request.correct_answer),
            multiple_answers: multiple,
            explanation: clone_opt_string(&request.explanation),
            position,
            created_at: now,
            updated_at: now,
            choices: Vec::new(),
            tags: Vec::new(),
        };
        let mut q = stored.clone();
        let ghost pre = self@;
        self.questions.push(stored);
        proof {
            assert(self@.questions =~~= pre.questions.push(stored_question(q@)));
            assert(self@ =~= (StoreView {
                questions: self@.questions,
                choices: self@.choices,
                ..pre
            }));
            assert(self@.choices =~= pre.choices + Seq::<ChoiceV>::empty());
        }
        let mut new_choices: Vec<Choice> = Vec::new();
        proof {
            assert(new_choices@.map_values(|c: Choice| c@) =~= Seq::<ChoiceV>::empty());
        }
        match &request.choices {
            Option::Some(cs) => {
                let mut k: usize = 0;
                while k < n_choices
                    invariant
                        n_choices == cs.len(),
                        n_choices <= i32::MAX,
                        k <= n_choices,
                        cids@.len() == n_choices,
                        forall|a: int| 0 <= a < n_choices ==> !has_choice(pre, (#[trigger] cids@[a])@),
                        forall|a: int, b: int|
                            0 <= a < b < n_choices ==> cids@[a]@ != cids@[b]@,
                        new_choices@.len() == k,
                        forall|a: int|
                            0 <= a < k ==> (#[trigger] new_choices@[a])@.id == cids@[a]@,
                        forall|a: int|
                            0 <= a < k ==> choice_matches_request(
                                (#[trigger] new_choices@[a])@,
                                q@.id,
                                cs@[a],
                                a as i32,
                            ),
                        self@.questions == pre.questions.push(stored_question(q@)),
                        self@.choices == pre.choices + new_choices@.map_values(|c: Choice| c@),
                        self@ == (StoreView {
                            questions: self@.questions,
                            choices: self@.choices,
                            ..pre
                        }),
                        q@ == stored_question(q@),
                    decreases n_choices - k,
                {
                    let cid = cids[k].clone();
                    let c = Choice {
                        id: cid,
                        question_id: q.id.clone(),
                        text: cs[k].text.clone(),
                        is_correct: cs[k].is_correct,
                        position: k as i32,
                    };
                    let ghost prev_choices = self@.choices;
                    self.choices.push(c.clone());
                    proof {
                        assert(self@.choices =~= prev_choices.push(c@));
                        assert((new_choices@.push(c)).map_values(|x: Choice| x@) =~= new_choices@.map_values(
                            |x: Choice| x@,
                        ).push(c@));
                        assert(self@.choices =~= pre.choices + new_choices@.push(c).map_values(
                            |x: Choice| x@,
                        ));
                    }
                    new_choices.push(c);
                    k += 1;
                }
            },
            Option::None => {},
        }
        q.choices = new_choices;
        let ghost post = self@;
        proof {
            assert(post =~~= (StoreView {
                questions: pre.questions.push(stored_question(q@)),
                choices: pre.choices + q@.choices,
                ..pre
            }));
            lemma_question_create_preserves_inv(pre, post, q@);
        }
        Result::Ok(q)
    }

    /// Creates a question with any requested choices, generating fresh
    /// identifiers and reading the clock.
    pub fn create_question(&mut self, quiz_id: &str, request: &CreateQuestionRequest) -> (r: Result<
        Question,
        AppError,
    >)
        requires
            old(self).wf(),
        ensures
            final(self).wf(),
            r matches Ok(q) ==> question_created(old(self)@, final(self)@, q@, quiz_id@, *request),
            r is Err ==> final(self)@ == old(self)@,
            !has_quiz(old(self)@, quiz_id@) ==> r == Result::<Question, AppError>::Err(
                AppError::NotFound,
            ),
            r is Err && has_quiz(old(self)@, quiz_id@) ==> r == Result::<Question, AppError>::Err(
                AppError::Store,
            ),
    {
        let id = fresh_id();
        let now = now_seconds();
        self.create_question_with_id(id, quiz_id, request, now)
    }

    /// Edits a question's content and grading fields under a
    /// caller-supplied update time; returns it with choices and tags
    /// loaded. Succeeds exactly when the question exists.
    pub fn update_question_at(
        &mut self,
        question_id: &str,
        request: &UpdateQuestionRequest,
        now: i64,
    ) -> (r: Result<Question, AppError>)
        requires
            old(self).wf(),
        ensures
            final(self).wf(),
            r matches Ok(q) ==> (exists|i: int|
                question_updated(old(self)@, final(self)@, i, *request, now as int) && old(
                    self,
                )@.questions[i].id == question_id@) && (exists|i: int|
                0 <= i < final(self)@.questions.len() && final(self)@.questions[i].id
                    == question_id@ && q@ == populated_question(
                    final(self)@,
                    final(self)@.questions[i],
                )),
            r is Ok <==> has_question(old(self)@, question_id@),
            r is Err ==> final(self)@ == old(self)@ && r == Result::<Question, AppError>::Err(
                AppError::NotFound,
            ),
    {
        let idx = match self.find_question(question_id) {
            Option::Some(i) => i,
            Option::None => {
                return Result::Err(AppError::NotFound);
            },
        };
        let content_type = type_or_default_owned(&request.content_type);
        let multiple = match request.multiple_answers {
            Option::Some(b) => b,
            Option::None => false,
        };
        let qtype = QuestionType::from_str(request.question_type.as_str());
        let current = &self.questions[idx];
        let stored = Question {
            id: current.id.clone(),
            quiz_id: current.quiz_id.clone(),
            question_type: qtype,
            content: request.content.clone(),
            content_type,
            content_language: clone_opt_string(&request.content_language),
            correct_answer: clone_opt_string(&request.correct_answer),
            multiple_answers: multiple,
            explanation: clone_opt_string(&request.explanation),
            position: current.position,
            created_at: current.created_at,
            updated_at: now,
            choices: Vec::new(),
            tags: Vec::new(),
        };
        let ghost pre = self@;
        self.questions.set(idx, stored);
        proof {
            assert(self@ =~~= (StoreView {
                questions: pre.questions.update(
                    idx as int,
                    QuestionV {
                        question_type: if request.question_type@ == "fill_in_blank"@ {
                            QuestionType::FillInBlank
                        } else {
                            QuestionType::MultipleChoice
                        },
                        content: request.content@,
                        content_type: type_or_default(opt_str(request.content_type)),
                        content_language: opt_str(request.content_language),
                        correct_answer: opt_str(request.correct_answer),
                        multiple_answers: (request.multiple_answers == Option::<bool>::Some(true)),
                        explanation: opt_str(request.explanation),
                        updated_at: now as int,
                        ..pre.questions[idx as int]
                    },
                ),
                ..pre
            }));
            lemma_update_question_same_id_preserves_inv(pre, self@, idx as int);
            assert(question_updated(pre, self@, idx as int, *request, now as int));
        }
        self.get_question(question_id)
    }

    /// Edits a question, reading the clock for the update time.
    pub fn update_question(&mut self, question_id: &str, request: &UpdateQuestionRequest) -> (r:
        Result<Question, AppError>)
        requires
            old(self).wf(),
        ensures
            final(self).wf(),
            r matches Ok(q) ==> exists|i: int, now: int|
                question_updated(old(self)@, final(self)@, i, *request, now) && old(
                    self,
                )@.questions[i].id == question_id@,
            r is Ok <==> has_question(old(self)@, question_id@),
            r is Err ==> final(self)@ == old(self)@ && r == Result::<Question, AppError>::Err(
                AppError::NotFound,
            ),
    {
        let now = now_seconds();
        self.update_question_at(question_id, request, now)
    }
}

impl Store {
    fn find_attempt(&self, id: &str) -> (r: Option<usize>)
        ensures
            match r {
                Option::Some(i) => i < self@.attempts.len() && self@.attempts[i as int].id == id@,
                Option::None => !has_attempt(self@, id@),
            },
    {
        let n = self.attempts.len();
        let mut i: usize = 0;
        while i < n
            invariant
                n == self.attempts.len(),
                i <= n,
                forall|j: int| 0 <= j < i ==> self@.attempts[j].id != id@,
            decreases n - i,
        {
            if str_eq(self.attempts[i].id.as_str(), id) {
                return Option::Some(i);
            }
            i += 1;
        }
        Option::None
    }

    /// Starts an attempt under a caller-supplied identifier and start
    /// time, snapshotting the quiz's question count.
    pub fn start_quiz_attempt_with_id(&mut self, id: String, quiz_id: &str, now: i64) -> (r: Result<
        QuizAttempt,
        AppError,
    >)
        requires
            old(self).wf(),
        ensures
            final(self).wf(),
            r matches Ok(a) ==> {
                &&& a@.id == id@
                &&& a@.quiz_id == quiz_id@
                &&& a@.started_at == now as int
                &&& a@.completed_at.is_none()
                &&& a@.duration_seconds.is_none()
                &&& a@.total_questions == questions_of_quiz(old(self)@, quiz_id@).len() as u64
                &&& a@.correct_answers == 0
                &&& a@.score_percentage == 0
                &&& a@.question_results.len() == 0
                &&& final(self)@ == (StoreView {
                    attempts: old(self)@.attempts.push(a@),
                    ..old(self)@
                })
            },
            r is Ok <==> (has_quiz(old(self)@, quiz_id@) && !has_attempt(old(self)@, id@) && now
                >= 0),
            r is Err ==> final(self)@ == old(self)@,
            !has_quiz(old(self)@, quiz_id@) ==> r == Result::<QuizAttempt, AppError>::Err(
                AppError::NotFound,
            ),
            has_quiz(old(self)@, quiz_id@) && now < 0 ==> r == Result::<QuizAttempt, AppError>::Err(
                AppError::Validation,
            ),
    {
        if self.find_quiz(quiz_id).is_none() {
            return Result::Err(AppError::NotFound);
        }
        if now < 0 {
            return Result::Err(AppError::Validation);
        }
        if self.find_attempt(id.as_str()).is_some() {
            return Result::Err(AppError::Store);
        }
        let total = self.count_questions_for(quiz_id);
        let a = QuizAttempt {
            id,
            quiz_id: quiz_id.to_owned(),
            started_at: now,
            completed_at: Option::None,
            duration_seconds: Option::None,
            total_questions: total,
            correct_answers: 0,
            score_percentage: 0,
            question_results: Vec::new(),
        };
        let ghost pre = self@;
        let ghost av = a@;
        self.attempts.push(a.clone());
        proof {
            assert(self@ =~~= (StoreView { attempts: pre.attempts.push(av), ..pre }));
            lemma_push_preserves_membership(pre, self@);
        }
        Result::Ok(a)
    }

    /// Starts an attempt, generating a fresh identifier and reading the
    /// clock.
    pub fn start_quiz_attempt(&mut self, quiz_id: &str) -> (r: Result<QuizAttempt, AppError>)
        requires
            old(self).wf(),
        ensures
            final(self).wf(),
            r matches Ok(a) ==> {
                &&& a@.quiz_id == quiz_id@
                &&& a@.completed_at.is_none()
                &&& a@.total_questions == questions_of_quiz(old(self)@, quiz_id@).len() as u64
                &&& a@.correct_answers == 0
                &&& a@.score_percentage == 0
                &&& final(self)@ == (StoreView {
                    attempts: old(self)@.attempts.push(a@),
                    ..old(self)@
                })
            },
            r is Err ==> final(self)@ == old(self)@,
            !has_quiz(old(self)@, quiz_id@) ==> r == Result::<QuizAttempt, AppError>::Err(
                AppError::NotFound,
            ),
    {
        let id = fresh_id();
        let now = now_seconds();
        self.start_quiz_attempt_with_id(id, quiz_id, now)
    }

    /// The result rows of one attempt, in store order.
    pub fn get_question_results_for_attempt(&self, attempt_id: &str) -> (r: Vec<QuestionResult>)
        requires
            self.wf(),
        ensures
            r@.map_values(|x: QuestionResult| x@) == results_of_attempt(self@, attempt_id@),
    {
        let n = self.question_results.len();
        let mut r: Vec<QuestionResult> = Vec::new();
        let mut i: usize = 0;
        while i < n
            invariant
                n == self.question_results.len(),
                i <= n,
                r@.map_values(|x: QuestionResult| x@) == self@.question_results.take(
                    i as int,
                ).filter(result_of_attempt(attempt_id@)),
            decreases n - i,
        {
            proof {
                self@.question_results.lemma_take_succ_push(i as int);
                lemma_filter_push(
                    self@.question_results.take(i as int),
                    self@.question_results[i as int],
                    result_of_attempt(attempt_id@),
                );
            }
            if str_eq(self.question_results[i].attempt_id.as_str(), attempt_id) {
                let x = self.question_results[i].clone();
                proof {
                    assert(r@.push(x).map_values(|y: QuestionResult| y@) =~= r@.map_values(
                        |y: QuestionResult| y@,
                    ).push(x@));
                }
                r.push(x);
            }
            i += 1;
        }
        proof {
            self@.question_results.lemma_take_len();
        }
        r
    }

    /// Fetches one attempt with its result rows; `NotFound` exactly when
    /// the identifier matches nothing.
    pub fn get_quiz_attempt(&self, attempt_id: &str) -> (r: Result<QuizAttempt, AppError>)
        requires
            self.wf(),
        ensures
            r matches Ok(a) ==> exists|i: int|
                0 <= i < self@.attempts.len() && self@.attempts[i].id == attempt_id@ && a@
                    == (QuizAttemptV {
                    question_results: results_of_attempt(self@, attempt_id@),
                    ..self@.attempts[i]
                }),
            r is Ok <==> has_attempt(self@, attempt_id@),
            r is Err ==> r == Result::<QuizAttempt, AppError>::Err(AppError::NotFound),
    {
        match self.find_attempt(attempt_id) {
            Option::Some(i) => {
                let results = self.get_question_results_for_attempt(attempt_id);
                let mut a = self.attempts[i].clone();
                a.question_results = results;
                proof {
                    assert(a@ =~= (QuizAttemptV {
                        question_results: results_of_attempt(self@, attempt_id@),
                        ..self@.attempts[i as int]
                    }));
                }
                Result::Ok(a)
            },
            Option::None => Result::Err(AppError::NotFound),
        }
    }

    /// Lists the attempts of one quiz, completed or not, most recently
    /// started first; result rows are left empty in this listing.
    pub fn get_quiz_attempts(&self, quiz_id: &str) -> (r: Vec<QuizAttempt>)
        requires
            self.wf(),
        ensures
            r@.map_values(|x: QuizAttempt| x@) == sort_by_started(
                self@.attempts.filter(attempt_of_quiz(quiz_id@)),
            ),
            r@.len() == self@.attempts.filter(attempt_of_quiz(quiz_id@)).len(),
    {
        let n = self.attempts.len();
        let mut rows: Vec<QuizAttempt> = Vec::new();
        let mut i: usize = 0;
        while i < n
            invariant
                n == self.attempts.len(),
                i <= n,
                rows@.map_values(|x: QuizAttempt| x@) == self@.attempts.take(i as int).filter(
                    attempt_of_quiz(quiz_id@),
                ),
            decreases n - i,
        {
            proof {
                self@.attempts.lemma_take_succ_push(i as int);
                lemma_filter_push(
                    self@.attempts.take(i as int),
                    self@.attempts[i as int],
                    attempt_of_quiz(quiz_id@),
                );
            }
            if str_eq(self.attempts[i].quiz_id.as_str(), quiz_id) {
                let x = self.attempts[i].clone();
                proof {
                    assert(rows@.push(x).map_values(|y: QuizAttempt| y@) =~= rows@.map_values(
                        |y: QuizAttempt| y@,
                    ).push(x@));
                }
                rows.push(x);
            }
            i += 1;
        }
        proof {
            self@.attempts.lemma_take_len();
        }
        let ghost unsorted = self@.attempts.filter(attempt_of_quiz(quiz_id@));
        let m = rows.len();
        let mut r: Vec<QuizAttempt> = Vec::new();
        let mut i: usize = 0;
        while i < m
            invariant
                m == rows.len(),
                rows@.map_values(|x: QuizAttempt| x@) == unsorted,
                i <= m,
                r@.map_values(|x: QuizAttempt| x@) == sort_by_started(unsorted.take(i as int)),
            decreases m - i,
        {
            let a = rows[i].clone();
            proof {
                assert(unsorted.take(i as int + 1).drop_last() =~= unsorted.take(i as int));
                assert(unsorted.take(i as int + 1).last() == a@);
            }
            insert_attempt_by_started(&mut r, a);
            i += 1;
        }
        proof {
            unsorted.lemma_take_len();
            lemma_sort_by_started_len(unsorted);
        }
        r
    }

    /// Grades and finalizes an attempt at a caller-supplied completion
    /// time: every answer is graded, one result row is recorded per
    /// answer, and the attempt receives its duration, tally and rounded
    /// score. An attempt, once completed, cannot be resubmitted; a
    /// resubmission, a completion clock before the start, or more
    /// answers than questions is refused as a validation error.
    pub fn submit_quiz_attempt_at(
        &mut self,
        attempt_id: &str,
        answers: &Vec<QuestionAnswer>,
        now: i64,
    ) -> (r: Result<QuizAttempt, AppError>)
        requires
            old(self).wf(),
        ensures
            final(self).wf(),
            r matches Ok(a) ==> (exists|i: int, results: Seq<QuestionResultV>|
                {
                    &&& old(self)@.attempts[i].id == attempt_id@
                    &&& attempt_submitted(old(self)@, final(self)@, i, results, answers@, now as int)
                    &&& a@ == (QuizAttemptV {
                        question_results: results_of_attempt(final(self)@, attempt_id@),
                        ..final(self)@.attempts[i]
                    })
                }),
            r is Ok <==> submit_ok(old(self)@, attempt_id@, answers@, now as int),
            r is Err ==> final(self)@ == old(self)@,
            !has_attempt(old(self)@, attempt_id@) ==> r == Result::<QuizAttempt, AppError>::Err(
                AppError::NotFound,
            ),
            has_attempt(old(self)@, attempt_id@) && !submit_row_ok(
                old(self)@,
                attempt_id@,
                answers@.len() as int,
                now as int,
            ) ==> r == Result::<QuizAttempt, AppError>::Err(AppError::Validation),
            has_attempt(old(self)@, attempt_id@) && submit_row_ok(
                old(self)@,
                attempt_id@,
                answers@.len() as int,
                now as int,
            ) && !submit_ok(old(self)@, attempt_id@, answers@, now as int) ==> r == Result::<
                QuizAttempt,
                AppError,
            >::Err(AppError::NotFound),
    {
        let idx = match self.find_attempt(attempt_id) {
            Option::Some(i) => i,
            Option::None => {
                return Result::Err(AppError::NotFound);
            },
        };
        if self.attempts[idx].completed_at.is_some() {
            proof {
                lemma_attempt_id_unique(self@, idx as int, attempt_id@);
            }
            return Result::Err(AppError::Validation);
        }
        if now < self.attempts[idx].started_at {
            proof {
                lemma_attempt_id_unique(self@, idx as int, attempt_id@);
            }
            return Result::Err(AppError::Validation);
        }
        if answers.len() as u64 > self.attempts[idx].total_questions {
            proof {
                lemma_attempt_id_unique(self@, idx as int, attempt_id@);
            }
            return Result::Err(AppError::Validation);
        }
        proof {
            lemma_attempt_id_unique(self@, idx as int, attempt_id@);
            assert(submit_row_ok(self@, attempt_id@, answers@.len() as int, now as int));
        }
        // Every answer must name an existing question before anything is
        // recorded.
        let n = answers.len();
        let mut k: usize = 0;
        while k < n
            invariant
                self@ == old(self)@,
                old(self).wf(),
                n == answers.len(),
                k <= n,
                submit_row_ok(old(self)@, attempt_id@, answers@.len() as int, now as int),
                forall|j: int|
                    0 <= j < k ==> has_question(old(self)@, (#[trigger] answers@[j]).question_id@),
            decreases n - k,
        {
            if self.find_question(answers[k].question_id.as_str()).is_none() {
                return Result::Err(AppError::NotFound);
            }
            k += 1;
        }
        // Grade.
        let ghost pre = self@;
        let mut correct: u64 = 0;
        let mut new_results: Vec<QuestionResult> = Vec::new();
        let mut k: usize = 0;
        while k < n
            invariant
                self@ == pre,
                pre == old(self)@,
                old(self).wf(),
                n == answers.len(),
                k <= n,
                correct <= k,
                correct == count_correct(pre, answers@.take(k as int)),
                forall|j: int|
                    0 <= j < n ==> has_question(pre, (#[trigger] answers@[j]).question_id@),
                new_results@.len() == k,
                forall|j: int|
                    0 <= j < k ==> {
                        &&& (#[trigger] new_results@[j])@.attempt_id == attempt_id@
                        &&& new_results@[j]@.question_id == answers@[j].question_id@
                        &&& new_results@[j]@.user_answer == Option::Some(answers@[j].answer@)
                        &&& new_results@[j]@.is_correct == answer_correct(pre, answers@[j])
                    },
            decreases n - k,
        {
            let q = match self.get_question(answers[k].question_id.as_str()) {
                Result::Ok(q) => q,
                Result::Err(_) => {
                    proof {
                        assert(false);
                    }
                    return Result::Err(AppError::NotFound);
                },
            };
            let ok = crate::grading::grade_answer(&q, answers[k].answer.as_str());
            proof {
                let w = choose|w: int|
                    0 <= w < pre.questions.len() && pre.questions[w].id == answers@[k as int].question_id@
                        && q@ == populated_question(pre, pre.questions[w]);
                assert forall|i: int|
                    0 <= i < pre.questions.len() && (#[trigger] pre.questions[i]).id
                        == answers@[k as int].question_id@ implies crate::grading::grade_answer_spec(
                    populated_question(pre, pre.questions[i]),
                    answers@[k as int].answer@,
                ) == ok by {
                    assert(i == w);
                }
                assert(ok == answer_correct(pre, answers@[k as int]));
                assert(answers@.take(k as int + 1).drop_last() =~= answers@.take(k as int));
                assert(answers@.take(k as int + 1).last() == answers@[k as int]);
            }
            let rid = fresh_id();
            let res = QuestionResult {
                id: rid,
                attempt_id: attempt_id.to_owned(),
                question_id: answers[k].question_id.clone(),
                user_answer: Option::Some(answers[k].answer.clone()),
                is_correct: ok,
            };
            new_results.push(res);
            if ok {
                correct += 1;
            }
            k += 1;
        }
        proof {
            answers@.lemma_take_len();
            lemma_count_correct_bound(pre, answers@);
        }
        // Finalize.
        let total = self.attempts[idx].total_questions;
        let score = crate::grading::compute_score(correct, total);
        let current = &self.attempts[idx];
        let updated = QuizAttempt {
            id: current.id.clone(),
            quiz_id: current.quiz_id.clone(),
            started_at: current.started_at,
            completed_at: Option::Some(now),
            duration_seconds: Option::Some(now - current.started_at),
            total_questions: current.total_questions,
            correct_answers: correct,
            score_percentage: score,
            question_results: Vec::new(),
        };
        let ghost resultsv = new_results@.map_values(|x: QuestionResult| x@);
        self.attempts.set(idx, updated);
        self.question_results.append(&mut new_results);
        proof {
            assert(self@ =~~= (StoreView {
                attempts: pre.attempts.update(
                    idx as int,
                    QuizAttemptV {
                        completed_at: Option::Some(now as i64),
                        duration_seconds: Option::Some(
                            (now - pre.attempts[idx as int].started_at) as i64,
                        ),
                        correct_answers: count_correct(pre, answers@) as u64,
                        score_percentage: score_of(
                            count_correct(pre, answers@),
                            pre.attempts[idx as int].total_questions as int,
                        ) as u32,
                        ..pre.attempts[idx as int]
                    },
                ),
                question_results: pre.question_results + resultsv,
                ..pre
            }));
            assert(attempt_submitted(pre, self@, idx as int, resultsv, answers@, now as int));
            lemma_submit_preserves_inv(pre, self@, idx as int, resultsv, answers@, now as int);
            lemma_attempt_id_unique(pre, idx as int, attempt_id@);
        }
        self.get_quiz_attempt(attempt_id)
    }

    /// Grades and finalizes an attempt, reading the clock for the
    /// completion time.
    pub fn submit_quiz_attempt(&mut self, attempt_id: &str, answers: &Vec<QuestionAnswer>) -> (r:
        Result<QuizAttempt, AppError>)
        requires
            old(self).wf(),
        ensures
            final(self).wf(),
            r matches Ok(a) ==> (exists|i: int, results: Seq<QuestionResultV>, now: int|
                {
                    &&& old(self)@.attempts[i].id == attempt_id@
                    &&& attempt_submitted(old(self)@, final(self)@, i, results, answers@, now)
                    &&& a@ == (QuizAttemptV {
                        question_results: results_of_attempt(final(self)@, attempt_id@),
                        ..final(self)@.attempts[i]
                    })
                }),
            r is Err ==> final(self)@ == old(self)@,
            !has_attempt(old(self)@, attempt_id@) ==> r == Result::<QuizAttempt, AppError>::Err(
                AppError::NotFound,
            ),
    {
        let now = now_seconds();
        self.submit_quiz_attempt_at(attempt_id, answers, now)
    }
}

// ============================================
// Sync queue access
// ============================================
pub open spec fn is_deck_entry(e: SyncQueueItemV) -> bool {
    e.entity_type == EntityKind::Deck
}

pub open spec fn is_card_entry(e: SyncQueueItemV) -> bool {
    e.entity_type == EntityKind::Card
}

/// The queue in replay order: all deck creations before all card
/// creations, first-in-first-out within each kind, because a card cannot
/// be created remotely before its parent deck has a remote identifier.
pub open spec fn ordered_queue(v: StoreView) -> Seq<SyncQueueItemV> {
    v.queue.filter(|e: SyncQueueItemV| is_deck_entry(e)) + v.queue.filter(
        |e: SyncQueueItemV| is_card_entry(e),
    )
}

/// The remote identifier persisted on the deck owning a card.
pub open spec fn deck_remote_of(v: StoreView, deck_id: Seq<char>) -> Option<i64> {
    v.decks[choose|i: int| 0 <= i < v.decks.len() && v.decks[i].id == deck_id].remote_id
}

/// How one successfully replayed entry lands back in the store: a deck
/// becomes `Synced` with its server identifier and sync time, a card
/// receives its server identifier, and either way the queue entry is
/// removed. Entries whose entity has vanished only leave the queue.
pub open spec fn apply_one_synced(
    v: StoreView,
    kind: EntityKind,
    entity_id: Seq<char>,
    queue_id: u64,
    remote_id: i64,
    now: int,
) -> StoreView {
    let v1 = if kind == EntityKind::Deck && has_deck(v, entity_id) {
        let i = choose|i: int| 0 <= i < v.decks.len() && v.decks[i].id == entity_id;
        StoreView {
            decks: v.decks.update(
                i,
                DeckV {
                    remote_id: Option::Some(remote_id),
                    sync_status: SyncStatus::Synced,
                    last_synced_at: Option::Some(now as i64),
                    ..v.decks[i]
                },
            ),
            ..v
        }
    } else if kind == EntityKind::Card && has_card(v, entity_id) {
        let i = choose|i: int| 0 <= i < v.cards.len() && v.cards[i].id == entity_id;
        StoreView {
            cards: v.cards.update(
                i,
                CardV { remote_id: Option::Some(remote_id), ..v.cards[i] },
            ),
            ..v
        }
    } else {
        v
    };
    StoreView { queue: v1.queue.filter(|e: SyncQueueItemV| e.id != queue_id), ..v1 }
}

impl Store {
    /// How many entries await replay.
    pub fn get_pending_count(&self) -> (n: u64)
        ensures
            n == self@.queue.len(),
    {
        self.queue.len() as u64
    }

    /// The queue snapshot in replay order: decks first, then cards,
    /// first-in-first-out within each kind.
    pub fn snapshot_queue_ordered(&self) -> (r: Vec<SyncQueueItem>)
        requires
            self.wf(),
        ensures
            r@.map_values(|x: SyncQueueItem| x@) == ordered_queue(self@),
    {
        let n = self.queue.len();
        let mut decks: Vec<SyncQueueItem> = Vec::new();
        let mut cards: Vec<SyncQueueItem> = Vec::new();
        let mut i: usize = 0;
        while i < n
            invariant
                n == self.queue.len(),
                i <= n,
                decks@.map_values(|x: SyncQueueItem| x@) == self@.queue.take(i as int).filter(
                    |e: SyncQueueItemV| is_deck_entry(e),
                ),
                cards@.map_values(|x: SyncQueueItem| x@) == self@.queue.take(i as int).filter(
                    |e: SyncQueueItemV| is_card_entry(e),
                ),
            decreases n - i,
        {
            proof {
                self@.queue.lemma_take_succ_push(i as int);
                lemma_filter_push(
                    self@.queue.take(i as int),
                    self@.queue[i as int],
                    |e: SyncQueueItemV| is_deck_entry(e),
                );
                lemma_filter_push(
                    self@.queue.take(i as int),
                    self@.queue[i as int],
                    |e: SyncQueueItemV| is_card_entry(e),
                );
            }
            let is_deck = match self.queue[i].entity_type {
                EntityKind::Deck => true,
                EntityKind::Card => false,
            };
            let x = self.queue[i].clone();
            if is_deck {
                proof {
                    assert(decks@.push(x).map_values(|y: SyncQueueItem| y@) =~= decks@.map_values(
                        |y: SyncQueueItem| y@,
                    ).push(x@));
                }
                decks.push(x);
            } else {
                proof {
                    assert(cards@.push(x).map_values(|y: SyncQueueItem| y@) =~= cards@.map_values(
                        |y: SyncQueueItem| y@,
                    ).push(x@));
                }
                cards.push(x);
            }
            i += 1;
        }
        proof {
            self@.queue.lemma_take_len();
        }
        let ghost dv = decks@.map_values(|x: SyncQueueItem| x@);
        let ghost cv = cards@.map_values(|x: SyncQueueItem| x@);
        let mut r = decks;
        r.append(&mut cards);
        proof {
            assert(r@.map_values(|x: SyncQueueItem| x@) =~= dv + cv);
        }
        r
    }

    /// The persisted remote identifier of one card's owning deck, if the
    /// card exists.
    pub fn deck_remote_for_card(&self, card_id: &str) -> (r: Option<(String, Option<i64>)>)
        requires
            self.wf(),
        ensures
            match r {
                Option::Some(p) => exists|i: int|
                    0 <= i < self@.cards.len() && (#[trigger] self@.cards[i]).id == card_id@
                        && p.0@ == self@.cards[i].deck_id && p.1 == deck_remote_of(
                        self@,
                        self@.cards[i].deck_id,
                    ),
                Option::None => !has_card(self@, card_id@),
            },
    {
        let ci = match self.find_card(card_id) {
            Option::Some(i) => i,
            Option::None => {
                return Option::None;
            },
        };
        let deck_id = self.cards[ci].deck_id.clone();
        match self.find_deck(deck_id.as_str()) {
            Option::Some(di) => {
                proof {
                    let j = choose|j: int|
                        0 <= j < self@.decks.len() && self@.decks[j].id == deck_id@;
                    assert(j == di as int);
                }
                Option::Some((deck_id, self.decks[di].remote_id))
            },
            Option::None => {
                proof {
                    assert(has_deck(self@, self@.cards[ci as int].deck_id));
                    assert(false);
                }
                Option::None
            },
        }
    }

    /// Applies one successful replay outcome to the store.
    pub fn apply_one_drain_result(
        &mut self,
        kind: EntityKind,
        entity_id: &str,
        queue_id: u64,
        remote_id: i64,
        now: i64,
    )
        requires
            old(self).wf(),
        ensures
            final(self).wf(),
            final(self)@ == apply_one_synced(
                old(self)@,
                kind,
                entity_id@,
                queue_id,
                remote_id,
                now as int,
            ),
    {
        let ghost pre = self@;
        match kind {
            EntityKind::Deck => {
                match self.find_deck(entity_id) {
                    Option::Some(i) => {
                        let current = &self.decks[i];
                        let d = Deck {
                            id: current.id.clone(),
                            name: current.name.clone(),
                            description: clone_opt_string(&current.description),
                            shuffle_cards: current.shuffle_cards,
                            created_at: current.created_at,
                            updated_at: current.updated_at,
                            remote_id: Option::Some(remote_id),
                            sync_status: SyncStatus::Synced,
                            last_synced_at: Option::Some(now),
                            remote_updated_at: current.remote_updated_at,
                            card_count: current.card_count,
                        };
                        let ghost dv = d@;
                        self.decks.set(i, d);
                        proof {
                            let j = choose|j: int|
                                0 <= j < pre.decks.len() && pre.decks[j].id == entity_id@;
                            assert(j == i as int);
                            assert(self@ =~= (StoreView {
                                decks: pre.decks.update(
                                    j,
                                    DeckV {
                                        remote_id: Option::Some(remote_id),
                                        sync_status: SyncStatus::Synced,
                                        last_synced_at: Option::Some(now as i64),
                                        ..pre.decks[j]
                                    },
                                ),
                                ..pre
                            }));
                            lemma_update_deck_same_id_preserves_membership(pre, self@, i as int);
                            assert forall|a: int, b: int|
                                0 <= a < b < self@.decks.len() implies self@.decks[a].id
                                != self@.decks[b].id by {
                                assert(pre.decks[a].id != pre.decks[b].id);
                            }
                        }
                    },
                    Option::None => {},
                }
            },
            EntityKind::Card => {
                match self.find_card(entity_id) {
                    Option::Some(i) => {
                        let current = &self.cards[i];
                        let mut c = current.clone();
                        c.remote_id = Option::Some(remote_id);
                        let ghost cv = c@;
                        self.cards.set(i, c);
                        proof {
                            let j = choose|j: int|
                                0 <= j < pre.cards.len() && pre.cards[j].id == entity_id@;
                            assert(j == i as int);
                            assert(self@ =~~= (StoreView {
                                cards: pre.cards.update(
                                    j,
                                    CardV { remote_id: Option::Some(remote_id), ..pre.cards[j] },
                                ),
                                ..pre
                            }));
                            lemma_card_update_same_identity_preserves_inv(pre, self@, i as int);
                        }
                    },
                    Option::None => {},
                }
            },
        }
        let ghost mid = self@;
        proof {
            assert(inv(mid));
        }
        // Remove the replayed entry from the queue.
        let mut kept: Vec<SyncQueueItem> = Vec::new();
        let n = self.queue.len();
        let mut i: usize = 0;
        while i < n
            invariant
                self@ == mid,
                mid.queue == pre.queue,
                n == self.queue.len(),
                i <= n,
                kept@.map_values(|x: SyncQueueItem| x@) == mid.queue.take(i as int).filter(
                    |e: SyncQueueItemV| e.id != queue_id,
                ),
            decreases n - i,
        {
            proof {
                mid.queue.lemma_take_succ_push(i as int);
                lemma_filter_push(
                    mid.queue.take(i as int),
                    mid.queue[i as int],
                    |e: SyncQueueItemV| e.id != queue_id,
                );
            }
            if self.queue[i].id != queue_id {
                let x = self.queue[i].clone();
                proof {
                    assert(kept@.push(x).map_values(|y: SyncQueueItem| y@) =~= kept@.map_values(
                        |y: SyncQueueItem| y@,
                    ).push(x@));
                }
                kept.push(x);
            }
            i += 1;
        }
        proof {
            mid.queue.lemma_take_len();
        }
        self.queue = kept;
        proof {
            assert(self@ =~= (StoreView {
                queue: mid.queue.filter(|e: SyncQueueItemV| e.id != queue_id),
                ..mid
            }));
            assert(self@ =~= apply_one_synced(pre, kind, entity_id@, queue_id, remote_id, now as int));
            let fq = mid.queue.filter(|e: SyncQueueItemV| e.id != queue_id);
            lemma_filter_pairwise(
                mid.queue,
                |e: SyncQueueItemV| e.id != queue_id,
                rel_queue_increasing(),
            );
            assert forall|a: int, b: int| 0 <= a < b < self@.queue.len() implies self@.queue[a].id
                < self@.queue[b].id by {
                assert(rel_queue_increasing()(fq[a], fq[b]));
            }
            assert forall|a: int| 0 <= a < self@.queue.len() implies queue_item_coherent(
                #[trigger] self@.queue[a],
            ) && self@.queue[a].id < self@.next_queue_id by {
                let k = choose|k: int| 0 <= k < mid.queue.len() && mid.queue[k] == fq[a];
                assert(queue_item_coherent(pre.queue[k]));
            }
            lemma_untouched_tables_inv(mid, self@);
            assert(inv_users(self@)) by {
                match mid.active_user {
                    Option::Some(uid) => {
                        assert(has_user(mid, uid));
                        let k = choose|k: int|
                            0 <= k < mid.users.len() && mid.users[k].id == uid;
                        assert(self@.users[k].id == uid);
                    },
                    Option::None => {},
                }
            }
            assert(inv_decks(self@)) by {
                assert forall|a: int, b: int|
                    0 <= a < b < self@.decks.len() implies self@.decks[a].id != self@.decks[b].id by {
                    assert(mid.decks[a].id != mid.decks[b].id);
                }
                assert forall|a: int| 0 <= a < self@.decks.len() implies deck_status_ok(
                    #[trigger] self@.decks[a],
                ) && self@.decks[a].card_count.is_none() by {
                    assert(deck_status_ok(mid.decks[a]));
                }
            }
        }
    }
}

pub open spec fn rel_queue_increasing() -> spec_fn(SyncQueueItemV, SyncQueueItemV) -> bool {
    |a: SyncQueueItemV, b: SyncQueueItemV| a.id < b.id
}

// ============================================
// Study sessions and their rollup
// ============================================
/// The ended sessions of one deck, in store order.
pub open spec fn ended_session_of_deck(id: Seq<char>) -> spec_fn(StudySessionV) -> bool {
    |s: StudySessionV| s.deck_id == id && s.ended_at.is_some()
}

pub open spec fn ended_sessions_of_deck(v: StoreView, id: Seq<char>) -> Seq<StudySessionV> {
    v.sessions.filter(ended_session_of_deck(id))
}

pub open spec fn session_duration(s: StudySessionV) -> int {
    match s.duration_seconds {
        Option::Some(d) => d as int,
        Option::None => 0,
    }
}

pub open spec fn sum_session_durations(s: Seq<StudySessionV>) -> int
    decreases s.len(),
{
    if s.len() == 0 {
        0
    } else {
        sum_session_durations(s.drop_last()) + session_duration(s.last())
    }
}

pub open spec fn sum_session_cards(s: Seq<StudySessionV>) -> int
    decreases s.len(),
{
    if s.len() == 0 {
        0
    } else {
        sum_session_cards(s.drop_last()) + s.last().cards_studied
    }
}

pub open spec fn max_session_end(s: Seq<StudySessionV>) -> Option<i64>
    decreases s.len(),
{
    if s.len() == 0 {
        Option::None
    } else {
        let rest = max_session_end(s.drop_last());
        match (rest, s.last().ended_at) {
            (Option::None, e) => e,
            (Option::Some(m), Option::None) => Option::Some(m),
            (Option::Some(m), Option::Some(e)) => if e > m {
                Option::Some(e)
            } else {
                Option::Some(m)
            },
        }
    }
}

impl Store {
    fn find_session(&self, id: &str) -> (r: Option<usize>)
        ensures
            match r {
                Option::Some(i) => i < self@.sessions.len() && self@.sessions[i as int].id == id@,
                Option::None => !has_session(self@, id@),
            },
    {
        let n = self.sessions.len();
        let mut i: usize = 0;
        while i < n
            invariant
                n == self.sessions.len(),
                i <= n,
                forall|j: int| 0 <= j < i ==> self@.sessions[j].id != id@,
            decreases n - i,
        {
            if str_eq(self.sessions[i].id.as_str(), id) {
                return Option::Some(i);
            }
            i += 1;
        }
        Option::None
    }

    /// Starts a study session against a deck under a caller-supplied
    /// identifier and start time.
    pub fn start_study_session_with_id(&mut self, id: String, deck_id: &str, now: i64) -> (r:
        Result<StudySession, AppError>)
        requires
            old(self).wf(),
        ensures
            final(self).wf(),
            r matches Ok(s) ==> {
                &&& s@.id == id@
                &&& s@.deck_id == deck_id@
                &&& s@.started_at == now as int
                &&& s@.ended_at.is_none()
                &&& s@.duration_seconds.is_none()
                &&& s@.cards_studied == 0
                &&& final(self)@ == (StoreView {
                    sessions: old(self)@.sessions.push(s@),
                    ..old(self)@
                })
            },
            r is Ok <==> (has_deck(old(self)@, deck_id@) && !has_session(old(self)@, id@) && now
                >= 0),
            r is Err ==> final(self)@ == old(self)@,
            !has_deck(old(self)@, deck_id@) ==> r == Result::<StudySession, AppError>::Err(
                AppError::NotFound,
            ),
            has_deck(old(self)@, deck_id@) && now < 0 ==> r == Result::<
                StudySession,
                AppError,
            >::Err(AppError::Validation),
    {
        if self.find_deck(deck_id).is_none() {
            return Result::Err(AppError::NotFound);
        }
        if now < 0 {
            return Result::Err(AppError::Validation);
        }
        if self.find_session(id.as_str()).is_some() {
            return Result::Err(AppError::Store);
        }
        let s = StudySession {
            id,
            deck_id: deck_id.to_owned(),
            started_at: now,
            ended_at: Option::None,
            duration_seconds: Option::None,
            cards_studied: 0,
        };
        let ghost pre = self@;
        let ghost sv = s@;
        self.sessions.push(s.clone());
        proof {
            assert(self@ =~= (StoreView { sessions: pre.sessions.push(sv), ..pre }));
            lemma_push_preserves_membership(pre, self@);
        }
        Result::Ok(s)
    }

    /// Starts a study session, generating a fresh identifier and reading
    /// the clock.
    pub fn start_study_session(&mut self, deck_id: &str) -> (r: Result<StudySession, AppError>)
        requires
            old(self).wf(),
        ensures
            final(self).wf(),
            r matches Ok(s) ==> {
                &&& s@.deck_id == deck_id@
                &&& s@.ended_at.is_none()
                &&& s@.cards_studied == 0
                &&& final(self)@ == (StoreView {
                    sessions: old(self)@.sessions.push(s@),
                    ..old(self)@
                })
            },
            r is Err ==> final(self)@ == old(self)@,
            !has_deck(old(self)@, deck_id@) ==> r == Result::<StudySession, AppError>::Err(
                AppError::NotFound,
            ),
    {
        let id = fresh_id();
        let now = now_seconds();
        self.start_study_session_with_id(id, deck_id, now)
    }

    /// Ends a study session at a caller-supplied end time, recording the
    /// cards studied and the elapsed duration.
    pub fn end_study_session_at(&mut self, session_id: &str, cards_studied: u64, now: i64) -> (r:
        Result<StudySession, AppError>)
        requires
            old(self).wf(),
        ensures
            final(self).wf(),
            r matches Ok(s) ==> exists|i: int|
                {
                    &&& 0 <= i < old(self)@.sessions.len()
                    &&& old(self)@.sessions[i].id == session_id@
                    &&& s@ == (StudySessionV {
                        ended_at: Option::Some(now as i64),
                        duration_seconds: Option::Some(
                            (now - old(self)@.sessions[i].started_at) as i64,
                        ),
                        cards_studied: cards_studied,
                        ..old(self)@.sessions[i]
                    })
                    &&& final(self)@ == (StoreView {
                        sessions: old(self)@.sessions.update(i, s@),
                        ..old(self)@
                    })
                },
            r is Ok <==> (has_session(old(self)@, session_id@) && (forall|i: int|
                0 <= i < old(self)@.sessions.len() && (#[trigger] old(self)@.sessions[i]).id
                    == session_id@ ==> now >= old(self)@.sessions[i].started_at)),
            r is Err ==> final(self)@ == old(self)@,
            !has_session(old(self)@, session_id@) ==> r == Result::<StudySession, AppError>::Err(
                AppError::NotFound,
            ),
            r is Err && has_session(old(self)@, session_id@) ==> r == Result::<
                StudySession,
                AppError,
            >::Err(AppError::Validation),
    {
        let idx = match self.find_session(session_id) {
            Option::Some(i) => i,
            Option::None => {
                return Result::Err(AppError::NotFound);
            },
        };
        if now < self.sessions[idx].started_at {
            proof {
                lemma_session_id_unique(self@, idx as int, session_id@);
            }
            return Result::Err(AppError::Validation);
        }
        let current = &self.sessions[idx];
        let s = StudySession {
            id: current.id.clone(),
            deck_id: current.deck_id.clone(),
            started_at: current.started_at,
            ended_at: Option::Some(now),
            duration_seconds: Option::Some(now - current.started_at),
            cards_studied,
        };
        let ghost pre = self@;
        let ghost sv = s@;
        self.sessions.set(idx, s.clone());
        proof {
            lemma_session_id_unique(pre, idx as int, session_id@);
            assert(self@ =~= (StoreView { sessions: pre.sessions.update(idx as int, sv), ..pre }));
            assert forall|a: int, b: int| 0 <= a < b < self@.sessions.len() implies self@.sessions[a].id
                != self@.sessions[b].id by {
                assert(pre.sessions[a].id != pre.sessions[b].id);
            }
            assert forall|a: int| 0 <= a < self@.sessions.len() implies {
                &&& (#[trigger] self@.sessions[a]).started_at >= 0
                &&& (self@.sessions[a].ended_at.is_some()
                    ==> self@.sessions[a].duration_seconds.is_some()
                    && self@.sessions[a].duration_seconds.unwrap() >= 0)
            } by {
                if a != idx as int {
                    assert(self@.sessions[a] == pre.sessions[a]);
                } else {
                    assert(pre.sessions[idx as int].started_at >= 0);
                }
            }
            assert(inv_users(self@)) by {
                match pre.active_user {
                    Option::Some(uid) => {
                        assert(has_user(pre, uid));
                    },
                    Option::None => {},
                }
            }
            lemma_untouched_tables_inv(pre, self@);
        }
        Result::Ok(s)
    }

    /// Ends a study session, reading the clock for the end time.
    pub fn end_study_session(&mut self, session_id: &str, cards_studied: u64) -> (r: Result<
        StudySession,
        AppError,
    >)
        requires
            old(self).wf(),
        ensures
            final(self).wf(),
            r matches Ok(s) ==> exists|i: int|
                {
                    &&& 0 <= i < old(self)@.sessions.len()
                    &&& old(self)@.sessions[i].id == session_id@
                    &&& s@.ended_at.is_some()
                    &&& s@.cards_studied == cards_studied
                    &&& final(self)@ == (StoreView {
                        sessions: old(self)@.sessions.update(i, s@),
                        ..old(self)@
                    })
                },
            r is Err ==> final(self)@ == old(self)@,
            !has_session(old(self)@, session_id@) ==> r == Result::<StudySession, AppError>::Err(
                AppError::NotFound,
            ),
    {
        let now = now_seconds();
        self.end_study_session_at(session_id, cards_studied, now)
    }

    /// Rolls up the ended sessions of one deck: count, summed study
    /// time, summed cards and the most recent end. Zero values, not an
    /// error, when no sessions exist.
    pub fn get_deck_study_stats(&self, deck_id: &str) -> (r: Result<DeckStudyStats, AppError>)
        requires
            self.wf(),
        ensures
            r matches Ok(st) ==> {
                &&& st.deck_id@ == deck_id@
                &&& st.total_sessions == ended_sessions_of_deck(self@, deck_id@).len() as u64
                &&& st.total_study_time_seconds == sum_session_durations(
                    ended_sessions_of_deck(self@, deck_id@),
                )
                &&& st.total_cards_studied == sum_session_cards(
                    ended_sessions_of_deck(self@, deck_id@),
                )
                &&& st.last_studied_at == max_session_end(ended_sessions_of_deck(self@, deck_id@))
            },
            r is Ok <==> (sum_session_durations(ended_sessions_of_deck(self@, deck_id@))
                <= i64::MAX && sum_session_cards(ended_sessions_of_deck(self@, deck_id@))
                <= u64::MAX),
            r is Err ==> r == Result::<DeckStudyStats, AppError>::Err(AppError::Store),
    {
        let ghost e = ended_sessions_of_deck(self@, deck_id@);
        proof {
            lemma_filter_pairwise(
                self@.sessions,
                ended_session_of_deck(deck_id@),
                rel_true_session(),
            );
            assert forall|j: int| 0 <= j < e.len() implies session_duration(#[trigger] e[j]) >= 0
                && e[j].ended_at.is_some() by {
                broadcast use vstd::seq_lib::group_filter_ensures;

                let k = choose|k: int| 0 <= k < self@.sessions.len() && self@.sessions[k] == e[j];
                assert(ended_session_of_deck(deck_id@)(e[j]));
            }
            lemma_sum_session_durations_nonneg(e);
            lemma_sum_session_cards_nonneg(e);
        }
        let n = self.sessions.len();
        let mut count: u64 = 0;
        let mut time_sum: i64 = 0;
        let mut cards_sum: u64 = 0;
        let mut last: Option<i64> = Option::None;
        let mut i: usize = 0;
        while i < n
            invariant
                self.wf(),
                n == self.sessions.len(),
                i <= n,
                e == ended_sessions_of_deck(self@, deck_id@),
                count == self@.sessions.take(i as int).filter(
                    ended_session_of_deck(deck_id@),
                ).len(),
                count <= i,
                time_sum == sum_session_durations(
                    self@.sessions.take(i as int).filter(ended_session_of_deck(deck_id@)),
                ),
                time_sum >= 0,
                cards_sum == sum_session_cards(
                    self@.sessions.take(i as int).filter(ended_session_of_deck(deck_id@)),
                ),
                last == max_session_end(
                    self@.sessions.take(i as int).filter(ended_session_of_deck(deck_id@)),
                ),
                forall|j: int| 0 <= j < e.len() ==> session_duration(#[trigger] e[j]) >= 0,
                cards_sum == sum_session_cards(
                    self@.sessions.take(i as int).filter(ended_session_of_deck(deck_id@)),
                ),
            decreases n - i,
        {
            let ghost fseq = self@.sessions.take(i as int).filter(ended_session_of_deck(deck_id@));
            proof {
                self@.sessions.lemma_take_succ_push(i as int);
                lemma_filter_push(
                    self@.sessions.take(i as int),
                    self@.sessions[i as int],
                    ended_session_of_deck(deck_id@),
                );
            }
            let keep = str_eq(self.sessions[i].deck_id.as_str(), deck_id)
                && self.sessions[i].ended_at.is_some();
            if keep {
                proof {
                    assert(fseq.push(self@.sessions[i as int]).drop_last() =~= fseq);
                    let s_all = self@.sessions;
                    let p = ended_session_of_deck(deck_id@);
                    assert(s_all.take(i as int + 1) + s_all.skip(i as int + 1) =~= s_all);
                    Seq::filter_distributes_over_add(
                        s_all.take(i as int + 1),
                        s_all.skip(i as int + 1),
                        p,
                    );
                    let newf = s_all.take(i as int + 1).filter(p);
                    let skipf = s_all.skip(i as int + 1).filter(p);
                    assert(e == newf + skipf);
                    lemma_sum_session_concat(newf, skipf);
                    assert forall|j: int| 0 <= j < skipf.len() implies session_duration(
                        #[trigger] skipf[j],
                    ) >= 0 by {
                        assert(skipf[j] == e[newf.len() + j]);
                    }
                    lemma_sum_session_durations_nonneg(skipf);
                    lemma_sum_session_cards_nonneg(skipf);
                }
                count = count + 1;
                let d = match self.sessions[i].duration_seconds {
                    Option::Some(d) => if d >= 0 {
                        d
                    } else {
                        0
                    },
                    Option::None => 0,
                };
                proof {
                    assert(d == session_duration(self@.sessions[i as int]));
                }
                if time_sum > i64::MAX - d {
                    return Result::Err(AppError::Store);
                }
                if cards_sum > u64::MAX - self.sessions[i].cards_studied {
                    return Result::Err(AppError::Store);
                }
                time_sum = time_sum + d;
                cards_sum = cards_sum + self.sessions[i].cards_studied;
                let ended = self.sessions[i].ended_at;
                last = match (last, ended) {
                    (Option::None, e2) => e2,
                    (Option::Some(m), Option::None) => Option::Some(m),
                    (Option::Some(m), Option::Some(e2)) => if e2 > m {
                        Option::Some(e2)
                    } else {
                        Option::Some(m)
                    },
                };
            } else {
                proof {
                    assert(fseq == self@.sessions.take(i as int + 1).filter(
                        ended_session_of_deck(deck_id@),
                    ));
                }
            }
            i += 1;
        }
        proof {
            self@.sessions.lemma_take_len();
        }
        Result::Ok(
            DeckStudyStats {
                deck_id: deck_id.to_owned(),
                total_sessions: count,
                total_study_time_seconds: time_sum,
                total_cards_studied: cards_sum,
                last_studied_at: last,
            },
        )
    }
}

pub open spec fn rel_true_session() -> spec_fn(StudySessionV, StudySessionV) -> bool {
    |a: StudySessionV, b: StudySessionV| true
}

proof fn lemma_sum_session_durations_nonneg(s: Seq<StudySessionV>)
    requires
        forall|j: int| 0 <= j < s.len() ==> session_duration(#[trigger] s[j]) >= 0,
    ensures
        sum_session_durations(s) >= 0,
    decreases s.len(),
{
    if s.len() > 0 {
        lemma_sum_session_durations_nonneg(s.drop_last());
    }
}

proof fn lemma_sum_session_cards_nonneg(s: Seq<StudySessionV>)
    ensures
        sum_session_cards(s) >= 0,
    decreases s.len(),
{
    if s.len() > 0 {
        lemma_sum_session_cards_nonneg(s.drop_last());
    }
}

/// Both session sums distribute over concatenation.
proof fn lemma_sum_session_concat(a: Seq<StudySessionV>, b: Seq<StudySessionV>)
    ensures
        sum_session_durations(a + b) == sum_session_durations(a) + sum_session_durations(b),
        sum_session_cards(a + b) == sum_session_cards(a) + sum_session_cards(b),
    decreases b.len(),
{
    if b.len() == 0 {
        assert(a + b =~= a);
    } else {
        assert((a + b).drop_last() =~= a + b.drop_last());
        assert((a + b).last() == b.last());
        lemma_sum_session_concat(a, b.drop_last());
    }
}

/// With distinct session identifiers, any matching index is unique.
proof fn lemma_session_id_unique(v: StoreView, i: int, id: Seq<char>)
    requires
        inv(v),
        0 <= i < v.sessions.len(),
        v.sessions[i].id == id,
    ensures
        forall|j: int| 0 <= j < v.sessions.len() && (#[trigger] v.sessions[j]).id == id ==> j == i,
{
    assert forall|j: int|
        0 <= j < v.sessions.len() && (#[trigger] v.sessions[j]).id == id implies j == i by {
        if j != i {
            assert(v.sessions[i].id != v.sessions[j].id);
        }
    }
}

// ============================================
// Quiz statistics
// ============================================
/// The completed attempts of one quiz, in store order.
pub open spec fn completed_attempt_of_quiz(qid: Seq<char>) -> spec_fn(QuizAttemptV) -> bool {
    |a: QuizAttemptV| a.quiz_id == qid && a.completed_at.is_some()
}

pub open spec fn completed_attempts(v: StoreView, qid: Seq<char>) -> Seq<QuizAttemptV> {
    v.attempts.filter(completed_attempt_of_quiz(qid))
}

pub open spec fn attempt_duration(a: QuizAttemptV) -> int {
    match a.duration_seconds {
        Option::Some(d) => d as int,
        Option::None => 0,
    }
}

pub open spec fn sum_scores(s: Seq<QuizAttemptV>) -> int
    decreases s.len(),
{
    if s.len() == 0 {
        0
    } else {
        sum_scores(s.drop_last()) + s.last().score_percentage
    }
}

pub open spec fn sum_durations(s: Seq<QuizAttemptV>) -> int
    decreases s.len(),
{
    if s.len() == 0 {
        0
    } else {
        sum_durations(s.drop_last()) + attempt_duration(s.last())
    }
}

pub open spec fn best_score_of(s: Seq<QuizAttemptV>) -> int
    decreases s.len(),
{
    if s.len() == 0 {
        0
    } else {
        let rest = best_score_of(s.drop_last());
        if s.last().score_percentage > rest {
            s.last().score_percentage as int
        } else {
            rest
        }
    }
}

pub open spec fn last_completed_of(s: Seq<QuizAttemptV>) -> Option<i64>
    decreases s.len(),
{
    if s.len() == 0 {
        Option::None
    } else {
        let rest = last_completed_of(s.drop_last());
        match (rest, s.last().completed_at) {
            (Option::None, e) => e,
            (Option::Some(m), Option::None) => Option::Some(m),
            (Option::Some(m), Option::Some(e)) => if e > m {
                Option::Some(e)
            } else {
                Option::Some(m)
            },
        }
    }
}

/// The mean score over the completed attempts, rounded to the nearest
/// whole percent; 0 when there are none.
pub open spec fn average_score_of(s: Seq<QuizAttemptV>) -> int {
    if s.len() > 0 {
        (2 * sum_scores(s) + s.len()) / (2 * s.len() as int)
    } else {
        0
    }
}

/// The mean duration over the completed attempts, in whole seconds
/// rounded down; absent when there are none.
pub open spec fn average_duration_of(s: Seq<QuizAttemptV>) -> Option<i64> {
    if s.len() > 0 {
        Option::Some((sum_durations(s) / s.len() as int) as i64)
    } else {
        Option::None
    }
}

/// The completion time an attempt sorts under.
pub open spec fn recency_key(a: QuizAttemptV) -> int {
    match a.completed_at {
        Option::Some(t) => t as int,
        Option::None => i64::MIN as int,
    }
}

/// Inserts an attempt into a newest-first sequence, after every attempt
/// completed at the same time or later: the order is stable for ties.
pub open spec fn insert_by_recency(a: QuizAttemptV, s: Seq<QuizAttemptV>) -> Seq<QuizAttemptV>
    decreases s.len(),
{
    if s.len() == 0 {
        seq![a]
    } else if recency_key(a) > recency_key(s[0]) {
        seq![a] + s
    } else {
        seq![s[0]] + insert_by_recency(a, s.drop_first())
    }
}

/// Stable newest-first ordering of attempts by completion time.
pub open spec fn sort_by_recency(s: Seq<QuizAttemptV>) -> Seq<QuizAttemptV>
    decreases s.len(),
{
    if s.len() == 0 {
        Seq::empty()
    } else {
        insert_by_recency(s.last(), sort_by_recency(s.drop_last()))
    }
}

pub proof fn lemma_insert_by_recency_len(a: QuizAttemptV, s: Seq<QuizAttemptV>)
    ensures
        insert_by_recency(a, s).len() == s.len() + 1,
    decreases s.len(),
{
    if s.len() > 0 && !(recency_key(a) > recency_key(s[0])) {
        lemma_insert_by_recency_len(a, s.drop_first());
    }
}

pub proof fn lemma_sort_by_recency_len(s: Seq<QuizAttemptV>)
    ensures
        sort_by_recency(s).len() == s.len(),
    decreases s.len(),
{
    if s.len() > 0 {
        lemma_sort_by_recency_len(s.drop_last());
        lemma_insert_by_recency_len(s.last(), sort_by_recency(s.drop_last()));
    }
}

proof fn lemma_insert_by_recency_skip(a: QuizAttemptV, s: Seq<QuizAttemptV>, idx: int)
    requires
        0 <= idx <= s.len(),
        forall|k: int| 0 <= k < idx ==> !(recency_key(a) > recency_key(#[trigger] s[k])),
    ensures
        insert_by_recency(a, s) == s.take(idx) + insert_by_recency(a, s.skip(idx)),
    decreases idx,
{
    if idx == 0 {
        assert(s.skip(0) == s);
        assert(s.take(0) + insert_by_recency(a, s) =~= insert_by_recency(a, s));
    } else {
        assert(s.len() > 0);
        assert(!(recency_key(a) > recency_key(s[0])));
        lemma_insert_by_recency_skip(a, s.drop_first(), idx - 1);
        assert(s.drop_first().take(idx - 1) =~= s.take(idx).drop_first());
        assert(s.drop_first().skip(idx - 1) =~= s.skip(idx));
        assert(seq![s[0]] + (s.drop_first().take(idx - 1) + insert_by_recency(
            a,
            s.drop_first().skip(idx - 1),
        )) =~= s.take(idx) + insert_by_recency(a, s.skip(idx)));
    }
}

/// The scores of the five most recently completed attempts, newest
/// first.
pub open spec fn recent_scores_of(s: Seq<QuizAttemptV>) -> Seq<u32> {
    sort_by_recency(s).map_values(|a: QuizAttemptV| a.score_percentage).take(
        if s.len() < 5 {
            s.len() as int
        } else {
            5
        },
    )
}

/// For every completed attempt of a well-formed store, the score is the
/// exact rounded percentage of correct answers and lands between 0 and
/// 100 — with no questions, it is 0.
pub proof fn lemma_completed_attempt_score(v: StoreView, i: int)
    requires
        inv(v),
        0 <= i < v.attempts.len(),
        v.attempts[i].completed_at.is_some(),
    ensures
        v.attempts[i].score_percentage == score_of(
            v.attempts[i].correct_answers as int,
            v.attempts[i].total_questions as int,
        ),
        0 <= v.attempts[i].score_percentage <= 100,
        v.attempts[i].total_questions == 0 ==> v.attempts[i].score_percentage == 0,
{
    assert(attempt_completed_ok(v.attempts[i]));
    crate::grading::lemma_score_bounds(
        v.attempts[i].correct_answers as int,
        v.attempts[i].total_questions as int,
    );
}

fn insert_attempt_sorted(r: &mut Vec<QuizAttempt>, a: QuizAttempt)
    ensures
        final(r)@.map_values(|x: QuizAttempt| x@) == insert_by_recency(
            a@,
            old(r)@.map_values(|x: QuizAttempt| x@),
        ),
{
    let ghost s = r@.map_values(|x: QuizAttempt| x@);
    let n = r.len();
    let mut idx: usize = 0;
    while idx < n && !greater_recency(&a, &r[idx])
        invariant
            n == r.len(),
            s == r@.map_values(|x: QuizAttempt| x@),
            idx <= n,
            forall|k: int| 0 <= k < idx ==> !(recency_key(a@) > recency_key(#[trigger] s[k])),
        decreases n - idx,
    {
        idx += 1;
    }
    proof {
        lemma_insert_by_recency_skip(a@, s, idx as int);
        if idx < n {
            assert(s.skip(idx as int)[0] == s[idx as int]);
            assert(insert_by_recency(a@, s.skip(idx as int)) == seq![a@] + s.skip(idx as int));
        } else {
            assert(s.skip(idx as int).len() == 0);
        }
    }
    r.insert(idx, a);
    proof {
        assert(r@.map_values(|x: QuizAttempt| x@) =~= s.take(idx as int) + insert_by_recency(
            a@,
            s.skip(idx as int),
        ));
    }
}

fn greater_recency(a: &QuizAttempt, b: &QuizAttempt) -> (r: bool)
    ensures
        r == (recency_key(a@) > recency_key(b@)),
{
    let ka = match a.completed_at {
        Option::Some(t) => t,
        Option::None => i64::MIN,
    };
    let kb = match b.completed_at {
        Option::Some(t) => t,
        Option::None => i64::MIN,
    };
    ka > kb
}

impl Store {
    /// Rolls up the completed attempts of one quiz: count, rounded mean
    /// score, best score, mean duration, most recent completion and the
    /// five most recent scores, newest first. All zeros and an empty
    /// list — not an error — when no attempt has been completed.
    pub fn get_quiz_stats(&self, quiz_id: &str) -> (st: QuizStats)
        requires
            self.wf(),
        ensures
            st.quiz_id@ == quiz_id@,
            st.total_attempts == completed_attempts(self@, quiz_id@).len() as u64,
            st.average_score == average_score_of(completed_attempts(self@, quiz_id@)),
            st.best_score == best_score_of(completed_attempts(self@, quiz_id@)),
            st.average_duration_seconds == average_duration_of(
                completed_attempts(self@, quiz_id@),
            ),
            st.last_attempt_at == last_completed_of(completed_attempts(self@, quiz_id@)),
            st.recent_scores@ == recent_scores_of(completed_attempts(self@, quiz_id@)),
    {
        let ghost cs = completed_attempts(self@, quiz_id@);
        // Gather the completed attempts in store order.
        let n = self.attempts.len();
        let mut rows: Vec<QuizAttempt> = Vec::new();
        let mut i: usize = 0;
        while i < n
            invariant
                self.wf(),
                n == self.attempts.len(),
                i <= n,
                rows@.map_values(|x: QuizAttempt| x@) == self@.attempts.take(i as int).filter(
                    completed_attempt_of_quiz(quiz_id@),
                ),
            decreases n - i,
        {
            proof {
                self@.attempts.lemma_take_succ_push(i as int);
                lemma_filter_push(
                    self@.attempts.take(i as int),
                    self@.attempts[i as int],
                    completed_attempt_of_quiz(quiz_id@),
                );
            }
            if str_eq(self.attempts[i].quiz_id.as_str(), quiz_id) && self.attempts[
                i
            ].completed_at.is_some() {
                let x = self.attempts[i].clone();
                proof {
                    assert(rows@.push(x).map_values(|y: QuizAttempt| y@) =~= rows@.map_values(
                        |y: QuizAttempt| y@,
                    ).push(x@));
                }
                rows.push(x);
            }
            i += 1;
        }
        proof {
            self@.attempts.lemma_take_len();
            lemma_filter_pairwise(
                self@.attempts,
                completed_attempt_of_quiz(quiz_id@),
                rel_true_attempt(),
            );
            assert forall|j: int| 0 <= j < cs.len() implies 0 <= (#[trigger] cs[j]).score_percentage
                <= 100 && attempt_duration(cs[j]) >= 0 by {
                broadcast use vstd::seq_lib::group_filter_ensures;

                let k = choose|k: int| 0 <= k < self@.attempts.len() && self@.attempts[k] == cs[j];
                lemma_completed_attempt_score(self@, k);
                assert(completed_attempt_of_quiz(quiz_id@)(cs[j]));
                assert(attempt_completed_ok(self@.attempts[k]));
            }
        }
        // Aggregate.
        let m = rows.len();
        let mut score_sum: u128 = 0;
        let mut dur_sum: i128 = 0;
        let mut best: u32 = 0;
        let mut last: Option<i64> = Option::None;
        let mut k: usize = 0;
        while k < m
            invariant
                m == rows.len(),
                rows@.map_values(|x: QuizAttempt| x@) == cs,
                forall|j: int|
                    0 <= j < cs.len() ==> 0 <= (#[trigger] cs[j]).score_percentage <= 100
                        && attempt_duration(cs[j]) >= 0,
                k <= m,
                score_sum == sum_scores(cs.take(k as int)),
                score_sum <= 100 * (k as int),
                dur_sum == sum_durations(cs.take(k as int)),
                0 <= dur_sum,
                dur_sum <= 0x7fff_ffff_ffff_ffff * (k as int),
                best == best_score_of(cs.take(k as int)),
                last == last_completed_of(cs.take(k as int)),
            decreases m - k,
        {
            proof {
                assert(cs.take(k as int + 1).drop_last() =~= cs.take(k as int));
                assert(cs.take(k as int + 1).last() == cs[k as int]);
            }
            score_sum = score_sum + (rows[k].score_percentage as u128);
            let d = match rows[k].duration_seconds {
                Option::Some(d) => if d >= 0 {
                    d
                } else {
                    0
                },
                Option::None => 0,
            };
            proof {
                assert(d == attempt_duration(cs[k as int]));
            }
            dur_sum = dur_sum + (d as i128);
            if rows[k].score_percentage > best {
                best = rows[k].score_percentage;
            }
            let ended = rows[k].completed_at;
            last = match (last, ended) {
                (Option::None, e2) => e2,
                (Option::Some(mx), Option::None) => Option::Some(mx),
                (Option::Some(mx), Option::Some(e2)) => if e2 > mx {
                    Option::Some(e2)
                } else {
                    Option::Some(mx)
                },
            };
            k += 1;
        }
        proof {
            cs.lemma_take_len();
        }
        let count = m as u64;
        let avg_score: u32 = if m == 0 {
            0
        } else {
            let num: u128 = 2u128 * score_sum + (m as u128);
            let den: u128 = 2u128 * (m as u128);
            let q = num / den;
            proof {
                assert((2 * sum_scores(cs) + cs.len() as int) / (2 * cs.len() as int) <= 100)
                    by (nonlinear_arith)
                    requires
                        sum_scores(cs) <= 100 * cs.len(),
                        cs.len() >= 1,
                ;
                assert((2 * sum_scores(cs) + cs.len() as int) / (2 * cs.len() as int) >= 0)
                    by (nonlinear_arith)
                    requires
                        sum_scores(cs) >= 0,
                        cs.len() >= 1,
                ;
                assert(sum_scores(cs) >= 0) by {
                    assert(score_sum == sum_scores(cs));
                }
            }
            q as u32
        };
        let avg_dur: Option<i64> = if m == 0 {
            Option::None
        } else {
            let q = dur_sum / (m as i128);
            proof {
                assert(sum_durations(cs) / (cs.len() as int) <= 0x7fff_ffff_ffff_ffff)
                    by (nonlinear_arith)
                    requires
                        sum_durations(cs) <= 0x7fff_ffff_ffff_ffff * cs.len(),
                        cs.len() >= 1,
                ;
                assert(sum_durations(cs) / (cs.len() as int) >= 0) by (nonlinear_arith)
                    requires
                        sum_durations(cs) >= 0,
                        cs.len() >= 1,
                ;
            }
            Option::Some(q as i64)
        };
        // Five most recent scores, newest first.
        let mut sorted: Vec<QuizAttempt> = Vec::new();
        let mut k: usize = 0;
        while k < m
            invariant
                m == rows.len(),
                rows@.map_values(|x: QuizAttempt| x@) == cs,
                k <= m,
                sorted@.map_values(|x: QuizAttempt| x@) == sort_by_recency(cs.take(k as int)),
            decreases m - k,
        {
            let a = rows[k].clone();
            proof {
                assert(cs.take(k as int + 1).drop_last() =~= cs.take(k as int));
                assert(cs.take(k as int + 1).last() == a@);
            }
            insert_attempt_sorted(&mut sorted, a);
            k += 1;
        }
        proof {
            cs.lemma_take_len();
            lemma_sort_by_recency_len(cs);
        }
        let top = if m < 5 {
            m
        } else {
            5
        };
        let mut recent: Vec<u32> = Vec::new();
        let mut k: usize = 0;
        while k < top
            invariant
                top <= sorted.len(),
                sorted@.map_values(|x: QuizAttempt| x@) == sort_by_recency(cs),
                k <= top,
                recent@.len() == k,
                forall|j: int|
                    0 <= j < k ==> recent@[j] == sort_by_recency(cs)[j].score_percentage,
            decreases top - k,
        {
            recent.push(sorted[k].score_percentage);
            k += 1;
        }
        proof {
            assert(recent@ =~= recent_scores_of(cs));
        }
        QuizStats {
            quiz_id: quiz_id.to_owned(),
            total_attempts: count,
            average_score: avg_score,
            best_score: best,
            average_duration_seconds: avg_dur,
            last_attempt_at: last,
            recent_scores: recent,
        }
    }
}

pub open spec fn rel_true_attempt() -> spec_fn(QuizAttemptV, QuizAttemptV) -> bool {
    |a: QuizAttemptV, b: QuizAttemptV| true
}

// ============================================
// Local users
// ============================================
/// Whether a candidate password passes a stored row: rows without a
/// digest accept anything; rows with one demand a matching digest.
pub open spec fn password_accepted(row: UserRowV, password: Option<Seq<u8>>) -> bool {
    match (row.password_hash, password) {
        (Option::None, _) => true,
        (Option::Some(_), Option::None) => false,
        (Option::Some(stored), Option::Some(given)) => stored
            == crate::text::password_digest(given),
    }
}

pub open spec fn opt_bytes_of(o: Option<&str>) -> Option<Seq<u8>> {
    match o {
        Option::Some(s) => Option::Some(s.spec_bytes()),
        Option::None => Option::None,
    }
}

pub open spec fn rel_distinct_user() -> spec_fn(UserRowV, UserRowV) -> bool {
    |a: UserRowV, b: UserRowV| a.id != b.id
}

/// The profile listing's precedence: a profile with a login stands
/// before one without; two with logins order by most recent login, a
/// login tie by most recent creation; two without logins order by most
/// recent creation. Remaining ties keep store order.
pub open spec fn profile_listed_before(a: LocalUserV, b: LocalUserV) -> bool {
    match a.last_login_at {
        Option::Some(x) => match b.last_login_at {
            Option::Some(y) => x > y || (x == y && a.created_at > b.created_at),
            Option::None => true,
        },
        Option::None => match b.last_login_at {
            Option::Some(_) => false,
            Option::None => a.created_at > b.created_at,
        },
    }
}

/// Insertion step of the profile listing's order.
pub open spec fn insert_by_login(u: LocalUserV, s: Seq<LocalUserV>) -> Seq<LocalUserV>
    decreases s.len(),
{
    if s.len() == 0 {
        seq![u]
    } else if profile_listed_before(u, s[0]) {
        seq![u] + s
    } else {
        seq![s[0]] + insert_by_login(u, s.drop_first())
    }
}

/// Stable sort of profiles by the listing's precedence.
pub open spec fn sort_by_login(s: Seq<LocalUserV>) -> Seq<LocalUserV>
    decreases s.len(),
{
    if s.len() == 0 {
        Seq::empty()
    } else {
        insert_by_login(s.last(), sort_by_login(s.drop_last()))
    }
}

pub proof fn lemma_insert_by_login_len(u: LocalUserV, s: Seq<LocalUserV>)
    ensures
        insert_by_login(u, s).len() == s.len() + 1,
    decreases s.len(),
{
    if s.len() > 0 && !profile_listed_before(u, s[0]) {
        lemma_insert_by_login_len(u, s.drop_first());
    }
}

pub proof fn lemma_sort_by_login_len(s: Seq<LocalUserV>)
    ensures
        sort_by_login(s).len() == s.len(),
    decreases s.len(),
{
    if s.len() > 0 {
        lemma_sort_by_login_len(s.drop_last());
        lemma_insert_by_login_len(s.last(), sort_by_login(s.drop_last()));
    }
}

/// Skipping a sorted prefix that the inserted profile does not precede
/// commutes with insertion.
proof fn lemma_insert_by_login_skip(u: LocalUserV, s: Seq<LocalUserV>, idx: int)
    requires
        0 <= idx <= s.len(),
        forall|k: int| 0 <= k < idx ==> !profile_listed_before(u, #[trigger] s[k]),
    ensures
        insert_by_login(u, s) == s.take(idx) + insert_by_login(u, s.skip(idx)),
    decreases idx,
{
    if idx == 0 {
        assert(s.skip(0) == s);
        assert(s.take(0) + insert_by_login(u, s) =~= insert_by_login(u, s));
    } else {
        assert(s.len() > 0);
        assert(!profile_listed_before(u, s[0]));
        lemma_insert_by_login_skip(u, s.drop_first(), idx - 1);
        assert(s.drop_first().take(idx - 1) =~= s.take(idx).drop_first());
        assert(s.drop_first().skip(idx - 1) =~= s.skip(idx));
        assert(seq![s[0]] + (s.drop_first().take(idx - 1) + insert_by_login(
            u,
            s.drop_first().skip(idx - 1),
        )) =~= s.take(idx) + insert_by_login(u, s.skip(idx)));
    }
}

/// Whether `a` stands before `b` in the profile listing.
fn profile_precedes(a: &LocalUser, b: &LocalUser) -> (r: bool)
    ensures
        r == profile_listed_before(a@, b@),
{
    match a.last_login_at {
        Option::Some(x) => match b.last_login_at {
            Option::Some(y) => x > y || (x == y && a.created_at > b.created_at),
            Option::None => true,
        },
        Option::None => match b.last_login_at {
            Option::Some(_) => false,
            Option::None => a.created_at > b.created_at,
        },
    }
}

/// Inserts one profile into a listing already sorted by the listing's
/// precedence.
fn insert_user_sorted(r: &mut Vec<LocalUser>, u: LocalUser)
    ensures
        final(r)@.map_values(|x: LocalUser| x@) == insert_by_login(
            u@,
            old(r)@.map_values(|x: LocalUser| x@),
        ),
{
    let ghost s = r@.map_values(|x: LocalUser| x@);
    let n = r.len();
    let mut idx: usize = 0;
    while idx < n && !profile_precedes(&u, &r[idx])
        invariant
            n == r.len(),
            s == r@.map_values(|x: LocalUser| x@),
            idx <= n,
            forall|k: int| 0 <= k < idx ==> !profile_listed_before(u@, #[trigger] s[k]),
        decreases n - idx,
    {
        idx += 1;
    }
    proof {
        lemma_insert_by_login_skip(u@, s, idx as int);
        if idx < n {
            assert(s.skip(idx as int)[0] == s[idx as int]);
            assert(insert_by_login(u@, s.skip(idx as int)) == seq![u@] + s.skip(idx as int));
        } else {
            assert(s.skip(idx as int).len() == 0);
        }
    }
    r.insert(idx, u);
    proof {
        assert(r@.map_values(|x: LocalUser| x@) =~= s.take(idx as int) + insert_by_login(
            u@,
            s.skip(idx as int),
        ));
    }
}

impl Store {
    fn find_user(&self, id: &str) -> (r: Option<usize>)
        ensures
            match r {
                Option::Some(i) => i < self@.users.len() && self@.users[i as int].id == id@,
                Option::None => !has_user(self@, id@),
            },
    {
        let n = self.users.len();
        let mut i: usize = 0;
        while i < n
            invariant
                n == self.users.len(),
                i <= n,
                forall|j: int| 0 <= j < i ==> self@.users[j].id != id@,
            decreases n - i,
        {
            if str_eq(self.users[i].id.as_str(), id) {
                return Option::Some(i);
            }
            i += 1;
        }
        Option::None
    }

    /// Lists every profile, most recently logged in first: profiles
    /// that never logged in come last, ties order by most recent
    /// creation. Password digests stay inside.
    pub fn get_all_users(&self) -> (r: Vec<LocalUser>)
        requires
            self.wf(),
        ensures
            r@.map_values(|x: LocalUser| x@) == sort_by_login(
                self@.users.map_values(|u: UserRowV| row_profile(u)),
            ),
            r@.len() == self@.users.len(),
    {
        let n = self.users.len();
        let ghost profs = self@.users.map_values(|u: UserRowV| row_profile(u));
        let mut r: Vec<LocalUser> = Vec::new();
        let mut i: usize = 0;
        while i < n
            invariant
                n == self.users.len(),
                profs == self@.users.map_values(|u: UserRowV| row_profile(u)),
                i <= n,
                r@.map_values(|x: LocalUser| x@) == sort_by_login(profs.take(i as int)),
            decreases n - i,
        {
            let row = &self.users[i];
            let u = LocalUser {
                id: row.id.clone(),
                name: row.name.clone(),
                has_password: row.password_hash.is_some(),
                avatar: row.avatar.clone(),
                created_at: row.created_at,
                last_login_at: row.last_login_at,
            };
            proof {
                assert(u@ =~= row_profile(self@.users[i as int]));
                assert(profs.take(i as int + 1).drop_last() =~= profs.take(i as int));
                assert(profs.take(i as int + 1).last() == profs[i as int]);
                assert(profs[i as int] == u@);
            }
            insert_user_sorted(&mut r, u);
            i += 1;
        }
        proof {
            assert(profs.take(n as int) =~= profs);
            lemma_sort_by_login_len(profs);
        }
        r
    }

    /// Fetches one profile; `NotFound` exactly when the identifier
    /// matches nothing.
    pub fn get_user(&self, id: &str) -> (r: Result<LocalUser, AppError>)
        requires
            self.wf(),
        ensures
            r matches Ok(u) ==> exists|i: int|
                0 <= i < self@.users.len() && (#[trigger] self@.users[i]).id == id@ && u@
                    == row_profile(self@.users[i]),
            r is Ok <==> has_user(self@, id@),
            r is Err ==> r == Result::<LocalUser, AppError>::Err(AppError::NotFound),
    {
        match self.find_user(id) {
            Option::Some(i) => {
                let row = &self.users[i];
                let u = LocalUser {
                    id: row.id.clone(),
                    name: row.name.clone(),
                    has_password: row.password_hash.is_some(),
                    avatar: row.avatar.clone(),
                    created_at: row.created_at,
                    last_login_at: row.last_login_at,
                };
                proof {
                    assert(u@ =~= row_profile(self@.users[i as int]));
                }
                Result::Ok(u)
            },
            Option::None => Result::Err(AppError::NotFound),
        }
    }

    /// Creates a profile under a caller-supplied identifier and creation
    /// time; a password, if given, is stored as its digest, and the
    /// avatar defaults.
    pub fn create_user_with_id(&mut self, id: String, request: &CreateUserRequest, now: i64) -> (r:
        Result<LocalUser, AppError>)
        requires
            old(self).wf(),
        ensures
            final(self).wf(),
            r matches Ok(u) ==> {
                &&& u@.id == id@
                &&& u@.name == request.name@
                &&& u@.has_password == request.password.is_some()
                &&& u@.avatar == (match opt_str(request.avatar) {
                    Option::Some(a) => a,
                    Option::None => "avatar-smile"@,
                })
                &&& u@.created_at == now as int
                &&& u@.last_login_at.is_none()
                &&& (request.password.is_none() ==> final(self)@ == (StoreView {
                    users: old(self)@.users.push(
                        UserRowV {
                            id: u@.id,
                            name: u@.name,
                            password_hash: Option::None,
                            avatar: u@.avatar,
                            created_at: now as int,
                            last_login_at: Option::None,
                        },
                    ),
                    ..old(self)@
                }))
                &&& final(self)@.users.len() == old(self)@.users.len() + 1
                &&& (forall|j: int|
                    0 <= j < old(self)@.users.len() ==> #[trigger] final(self)@.users[j] == old(
                        self,
                    )@.users[j])
                &&& final(self)@.users.last() == (UserRowV {
                    id: u@.id,
                    name: u@.name,
                    password_hash: final(self)@.users.last().password_hash,
                    avatar: u@.avatar,
                    created_at: now as int,
                    last_login_at: Option::None,
                })
                &&& final(self)@.users.last().password_hash.is_some()
                    == request.password.is_some()
                &&& final(self)@ == (StoreView { users: final(self)@.users, ..old(self)@ })
            },
            r is Ok <==> !has_user(old(self)@, id@),
            r is Err ==> final(self)@ == old(self)@ && r == Result::<LocalUser, AppError>::Err(
                AppError::Store,
            ),
    {
        if self.find_user(id.as_str()).is_some() {
            return Result::Err(AppError::Store);
        }
        let password_hash = match &request.password {
            Option::Some(p) => Option::Some(crate::text::hash_password(p.as_str())),
            Option::None => Option::None,
        };
        let avatar = match &request.avatar {
            Option::Some(a) => a.clone(),
            Option::None => "avatar-smile".to_owned(),
        };
        let row = UserRow {
            id,
            name: request.name.clone(),
            password_hash,
            avatar,
            created_at: now,
            last_login_at: Option::None,
        };
        let u = LocalUser {
            id: row.id.clone(),
            name: row.name.clone(),
            has_password: row.password_hash.is_some(),
            avatar: row.avatar.clone(),
            created_at: row.created_at,
            last_login_at: row.last_login_at,
        };
        let ghost pre = self@;
        let ghost rv = row@;
        self.users.push(row);
        proof {
            assert(self@ =~~= (StoreView { users: pre.users.push(rv), ..pre }));
            lemma_push_preserves_membership(pre, self@);
        }
        Result::Ok(u)
    }

    /// Creates a profile, generating a fresh identifier and reading the
    /// clock.
    pub fn create_user(&mut self, request: &CreateUserRequest) -> (r: Result<LocalUser, AppError>)
        requires
            old(self).wf(),
        ensures
            final(self).wf(),
            r matches Ok(u) ==> {
                &&& u@.name == request.name@
                &&& u@.has_password == request.password.is_some()
                &&& u@.last_login_at.is_none()
            },
            r is Err ==> final(self)@ == old(self)@,
    {
        let id = fresh_id();
        let now = now_seconds();
        self.create_user_with_id(id, request, now)
    }

    /// Checks a candidate password against a profile: profiles without a
    /// password accept anything. `NotFound` exactly when the profile
    /// does not exist.
    pub fn verify_user_password(&self, user_id: &str, password: Option<&str>) -> (r: Result<
        bool,
        AppError,
    >)
        requires
            self.wf(),
        ensures
            r matches Ok(b) ==> exists|i: int|
                0 <= i < self@.users.len() && (#[trigger] self@.users[i]).id == user_id@ && b
                    == password_accepted(self@.users[i], opt_bytes_of(password)),
            r is Ok <==> has_user(self@, user_id@),
            r is Err ==> r == Result::<bool, AppError>::Err(AppError::NotFound),
    {
        let i = match self.find_user(user_id) {
            Option::Some(i) => i,
            Option::None => {
                return Result::Err(AppError::NotFound);
            },
        };
        let accepted = match (&self.users[i].password_hash, password) {
            (Option::None, _) => true,
            (Option::Some(_), Option::None) => false,
            (Option::Some(stored), Option::Some(given)) => {
                let digest = crate::text::hash_password(given);
                str_eq(stored.as_str(), digest.as_str())
            },
        };
        Result::Ok(accepted)
    }

    /// Logs a profile in at a caller-supplied time: the password must
    /// pass, the last-login time is set, and the profile becomes the
    /// active user. `Auth` exactly when the password is refused.
    pub fn login_user_at(&mut self, user_id: &str, password: Option<&str>, now: i64) -> (r: Result<
        LocalUser,
        AppError,
    >)
        requires
            old(self).wf(),
        ensures
            final(self).wf(),
            r matches Ok(u) ==> exists|i: int|
                {
                    &&& 0 <= i < old(self)@.users.len()
                    &&& old(self)@.users[i].id == user_id@
                    &&& password_accepted(old(self)@.users[i], opt_bytes_of(password))
                    &&& final(self)@ == (StoreView {
                        users: old(self)@.users.update(
                            i,
                            UserRowV {
                                last_login_at: Option::Some(now as i64),
                                ..old(self)@.users[i]
                            },
                        ),
                        active_user: Option::Some(user_id@),
                        ..old(self)@
                    })
                    &&& u@ == row_profile(
                        UserRowV { last_login_at: Option::Some(now as i64), ..old(self)@.users[i] },
                    )
                },
            r is Ok <==> (exists|i: int|
                0 <= i < old(self)@.users.len() && (#[trigger] old(self)@.users[i]).id == user_id@
                    && password_accepted(old(self)@.users[i], opt_bytes_of(password))),
            r is Err ==> final(self)@ == old(self)@,
            !has_user(old(self)@, user_id@) ==> r == Result::<LocalUser, AppError>::Err(
                AppError::NotFound,
            ),
            r is Err && has_user(old(self)@, user_id@) ==> r == Result::<LocalUser, AppError>::Err(
                AppError::Auth,
            ),
    {
        let i = match self.find_user(user_id) {
            Option::Some(i) => i,
            Option::None => {
                return Result::Err(AppError::NotFound);
            },
        };
        let accepted = match (&self.users[i].password_hash, password) {
            (Option::None, _) => true,
            (Option::Some(_), Option::None) => false,
            (Option::Some(stored), Option::Some(given)) => {
                let digest = crate::text::hash_password(given);
                str_eq(stored.as_str(), digest.as_str())
            },
        };
        proof {
            lemma_user_id_unique(self@, i as int, user_id@);
        }
        if !accepted {
            return Result::Err(AppError::Auth);
        }
        let current = &self.users[i];
        let row = UserRow {
            id: current.id.clone(),
            name: current.name.clone(),
            password_hash: clone_opt_string(&current.password_hash),
            avatar: current.avatar.clone(),
            created_at: current.created_at,
            last_login_at: Option::Some(now),
        };
        let u = LocalUser {
            id: row.id.clone(),
            name: row.name.clone(),
            has_password: row.password_hash.is_some(),
            avatar: row.avatar.clone(),
            created_at: row.created_at,
            last_login_at: row.last_login_at,
        };
        let ghost pre = self@;
        let ghost rv = row@;
        self.users.set(i, row);
        self.active_user = Option::Some(user_id.to_owned());
        proof {
            assert(self@ =~~= (StoreView {
                users: pre.users.update(
                    i as int,
                    UserRowV { last_login_at: Option::Some(now as i64), ..pre.users[i as int] },
                ),
                active_user: Option::Some(user_id@),
                ..pre
            }));
            assert forall|a: int, b: int| 0 <= a < b < self@.users.len() implies self@.users[a].id
                != self@.users[b].id by {
                assert(pre.users[a].id != pre.users[b].id);
            }
            assert(self@.users[i as int].id == user_id@);
            lemma_untouched_tables_inv(pre, self@);
        }
        Result::Ok(u)
    }

    /// Logs a profile in, reading the clock for the login time.
    pub fn login_user(&mut self, user_id: &str, password: Option<&str>) -> (r: Result<
        LocalUser,
        AppError,
    >)
        requires
            old(self).wf(),
        ensures
            final(self).wf(),
            r matches Ok(u) ==> u@.id == user_id@ && final(self)@.active_user == Option::Some(
                user_id@,
            ),
            r is Err ==> final(self)@ == old(self)@,
            !has_user(old(self)@, user_id@) ==> r == Result::<LocalUser, AppError>::Err(
                AppError::NotFound,
            ),
    {
        let now = now_seconds();
        self.login_user_at(user_id, password, now)
    }

    /// The currently active profile, if any.
    pub fn get_active_user(&self) -> (r: Option<LocalUser>)
        requires
            self.wf(),
        ensures
            match r {
                Option::Some(u) => self@.active_user == Option::Some(u@.id) && exists|i: int|
                    0 <= i < self@.users.len() && (#[trigger] self@.users[i]).id == u@.id && u@
                        == row_profile(self@.users[i]),
                Option::None => self@.active_user.is_none(),
            },
    {
        let id = match &self.active_user {
            Option::Some(id) => id.clone(),
            Option::None => {
                return Option::None;
            },
        };
        match self.get_user(id.as_str()) {
            Result::Ok(u) => Option::Some(u),
            Result::Err(_) => {
                proof {
                    assert(has_user(self@, id@));
                    assert(false);
                }
                Option::None
            },
        }
    }

    /// Clears the active user.
    pub fn logout_user(&mut self)
        requires
            old(self).wf(),
        ensures
            final(self).wf(),
            final(self)@ == (StoreView { active_user: Option::None, ..old(self)@ }),
    {
        let ghost pre = self@;
        self.active_user = Option::None;
        proof {
            assert(self@ =~= (StoreView { active_user: Option::None, ..pre }));
            lemma_untouched_tables_inv(pre, self@);
        }
    }

    /// Deletes a profile, logging it out first if it is the active one.
    pub fn delete_user(&mut self, user_id: &str)
        requires
            old(self).wf(),
        ensures
            final(self).wf(),
            final(self)@ == (StoreView {
                users: old(self)@.users.filter(user_not(user_id@)),
                active_user: if old(self)@.active_user == Option::Some(user_id@) {
                    Option::None
                } else {
                    old(self)@.active_user
                },
                ..old(self)@
            }),
    {
        let ghost pre = self@;
        let is_active = match &self.active_user {
            Option::Some(a) => str_eq(a.as_str(), user_id),
            Option::None => false,
        };
        if is_active {
            self.active_user = Option::None;
        }
        let mut kept: Vec<UserRow> = Vec::new();
        let n = self.users.len();
        let ghost mid = self@;
        let mut i: usize = 0;
        while i < n
            invariant
                self@ == mid,
                mid.users == pre.users,
                n == self.users.len(),
                i <= n,
                kept@.map_values(|x: UserRow| x@) == pre.users.take(i as int).filter(
                    user_not(user_id@),
                ),
            decreases n - i,
        {
            proof {
                pre.users.lemma_take_succ_push(i as int);
                lemma_filter_push(
                    pre.users.take(i as int),
                    pre.users[i as int],
                    user_not(user_id@),
                );
            }
            if !str_eq(self.users[i].id.as_str(), user_id) {
                let row = &self.users[i];
                let x = UserRow {
                    id: row.id.clone(),
                    name: row.name.clone(),
                    password_hash: clone_opt_string(&row.password_hash),
                    avatar: row.avatar.clone(),
                    created_at: row.created_at,
                    last_login_at: row.last_login_at,
                };
                proof {
                    assert(kept@.push(x).map_values(|y: UserRow| y@) =~= kept@.map_values(
                        |y: UserRow| y@,
                    ).push(x@));
                    assert(x@ =~= pre.users[i as int]);
                }
                kept.push(x);
            }
            i += 1;
        }
        proof {
            pre.users.lemma_take_len();
        }
        self.users = kept;
        proof {
            broadcast use vstd::seq_lib::group_filter_ensures;

            assert(self@ =~= (StoreView {
                users: pre.users.filter(user_not(user_id@)),
                active_user: if pre.active_user == Option::Some(user_id@) {
                    Option::None
                } else {
                    pre.active_user
                },
                ..pre
            }));
            lemma_filter_pairwise(pre.users, user_not(user_id@), rel_distinct_user());
            let fu = pre.users.filter(user_not(user_id@));
            assert forall|a: int, b: int| 0 <= a < b < self@.users.len() implies self@.users[a].id
                != self@.users[b].id by {
                assert(rel_distinct_user()(fu[a], fu[b]));
            }
            assert(inv_users(self@)) by {
                match self@.active_user {
                    Option::Some(uid) => {
                        assert(pre.active_user == Option::Some(uid));
                        assert(uid != user_id@);
                        assert(has_user(pre, uid));
                        let k = choose|k: int|
                            0 <= k < pre.users.len() && pre.users[k].id == uid;
                        assert(user_not(user_id@)(pre.users[k]));
                        assert(fu.contains(pre.users[k]));
                        let w = choose|w: int| 0 <= w < fu.len() && fu[w] == pre.users[k];
                        assert(self@.users[w].id == uid);
                    },
                    Option::None => {},
                }
            }
            lemma_untouched_tables_inv(pre, self@);
        }
    }

    /// Edits a profile's name and, where given, its password and avatar.
    /// Succeeds exactly when the profile exists.
    pub fn update_user(
        &mut self,
        user_id: &str,
        name: &str,
        password: Option<&str>,
        avatar: Option<&str>,
    ) -> (r: Result<LocalUser, AppError>)
        requires
            old(self).wf(),
        ensures
            final(self).wf(),
            r matches Ok(u) ==> exists|i: int|
                {
                    &&& 0 <= i < old(self)@.users.len()
                    &&& old(self)@.users[i].id == user_id@
                    &&& final(self)@ == (StoreView {
                        users: old(self)@.users.update(
                            i,
                            UserRowV {
                                name: name@,
                                password_hash: (match opt_bytes_of(password) {
                                    Option::Some(b) => Option::Some(
                                        crate::text::password_digest(b),
                                    ),
                                    Option::None => old(self)@.users[i].password_hash,
                                }),
                                avatar: (match opt_str_ref(avatar) {
                                    Option::Some(a) => a,
                                    Option::None => old(self)@.users[i].avatar,
                                }),
                                ..old(self)@.users[i]
                            },
                        ),
                        ..old(self)@
                    })
                    &&& u@ == row_profile(final(self)@.users[i])
                },
            r is Ok <==> has_user(old(self)@, user_id@),
            r is Err ==> final(self)@ == old(self)@ && r == Result::<LocalUser, AppError>::Err(
                AppError::NotFound,
            ),
    {
        let i = match self.find_user(user_id) {
            Option::Some(i) => i,
            Option::None => {
                return Result::Err(AppError::NotFound);
            },
        };
        let current = &self.users[i];
        let new_hash = match password {
            Option::Some(p) => Option::Some(crate::text::hash_password(p)),
            Option::None => clone_opt_string(&current.password_hash),
        };
        let new_avatar = match avatar {
            Option::Some(a) => a.to_owned(),
            Option::None => current.avatar.clone(),
        };
        let row = UserRow {
            id: current.id.clone(),
            name: name.to_owned(),
            password_hash: new_hash,
            avatar: new_avatar,
            created_at: current.created_at,
            last_login_at: current.last_login_at,
        };
        let u = LocalUser {
            id: row.id.clone(),
            name: row.name.clone(),
            has_password: row.password_hash.is_some(),
            avatar: row.avatar.clone(),
            created_at: row.created_at,
            last_login_at: row.last_login_at,
        };
        let ghost pre = self@;
        let ghost rv = row@;
        self.users.set(i, row);
        proof {
            assert(self@ =~~= (StoreView {
                users: pre.users.update(
                    i as int,
                    UserRowV {
                        name: name@,
                        password_hash: (match opt_bytes_of(password) {
                            Option::Some(b) => Option::Some(crate::text::password_digest(b)),
                            Option::None => pre.users[i as int].password_hash,
                        }),
                        avatar: (match opt_str_ref(avatar) {
                            Option::Some(a) => a,
                            Option::None => pre.users[i as int].avatar,
                        }),
                        ..pre.users[i as int]
                    },
                ),
                ..pre
            }));
            assert forall|a: int, b: int| 0 <= a < b < self@.users.len() implies self@.users[a].id
                != self@.users[b].id by {
                assert(pre.users[a].id != pre.users[b].id);
            }
            assert(inv_users(self@)) by {
                match pre.active_user {
                    Option::Some(uid) => {
                        assert(has_user(pre, uid));
                        let k = choose|k: int|
                            0 <= k < pre.users.len() && pre.users[k].id == uid;
                        assert(self@.users[k].id == uid);
                    },
                    Option::None => {},
                }
            }
            lemma_untouched_tables_inv(pre, self@);
            assert(u@ =~= row_profile(self@.users[i as int]));
        }
        Result::Ok(u)
    }

    /// Removes a profile's password; it then accepts any login. Succeeds
    /// exactly when the profile exists.
    pub fn remove_user_password(&mut self, user_id: &str) -> (r: Result<LocalUser, AppError>)
        requires
            old(self).wf(),
        ensures
            final(self).wf(),
            r matches Ok(u) ==> exists|i: int|
                {
                    &&& 0 <= i < old(self)@.users.len()
                    &&& old(self)@.users[i].id == user_id@
                    &&& final(self)@ == (StoreView {
                        users: old(self)@.users.update(
                            i,
                            UserRowV { password_hash: Option::None, ..old(self)@.users[i] },
                        ),
                        ..old(self)@
                    })
                    &&& u@ == row_profile(final(self)@.users[i])
                    &&& !u@.has_password
                },
            r is Ok <==> has_user(old(self)@, user_id@),
            r is Err ==> final(self)@ == old(self)@ && r == Result::<LocalUser, AppError>::Err(
                AppError::NotFound,
            ),
    {
        let i = match self.find_user(user_id) {
            Option::Some(i) => i,
            Option::None => {
                return Result::Err(AppError::NotFound);
            },
        };
        let current = &self.users[i];
        let row = UserRow {
            id: current.id.clone(),
            name: current.name.clone(),
            password_hash: Option::None,
            avatar: current.avatar.clone(),
            created_at: current.created_at,
            last_login_at: current.last_login_at,
        };
        let u = LocalUser {
            id: row.id.clone(),
            name: row.name.clone(),
            has_password: false,
            avatar: row.avatar.clone(),
            created_at: row.created_at,
            last_login_at: row.last_login_at,
        };
        let ghost pre = self@;
        self.users.set(i, row);
        proof {
            assert(self@ =~~= (StoreView {
                users: pre.users.update(
                    i as int,
                    UserRowV { password_hash: Option::None, ..pre.users[i as int] },
                ),
                ..pre
            }));
            assert forall|a: int, b: int| 0 <= a < b < self@.users.len() implies self@.users[a].id
                != self@.users[b].id by {
                assert(pre.users[a].id != pre.users[b].id);
            }
            assert(inv_users(self@)) by {
                match pre.active_user {
                    Option::Some(uid) => {
                        assert(has_user(pre, uid));
                        let k = choose|k: int|
                            0 <= k < pre.users.len() && pre.users[k].id == uid;
                        assert(self@.users[k].id == uid);
                    },
                    Option::None => {},
                }
            }
            lemma_untouched_tables_inv(pre, self@);
            assert(u@ =~= row_profile(self@.users[i as int]));
        }
        Result::Ok(u)
    }
}

// ============================================
// Quiz tags and question tagging
// ============================================
pub open spec fn quiz_tag_of_quiz(qid: Seq<char>) -> spec_fn(QuizTagV) -> bool {
    |t: QuizTagV| t.quiz_id == qid
}

pub open spec fn quiz_tags_of_quiz(v: StoreView, qid: Seq<char>) -> Seq<QuizTagV> {
    v.quiz_tags.filter(quiz_tag_of_quiz(qid))
}

pub open spec fn quiz_tag_not_matching(id: Seq<char>, quiz_id: Seq<char>) -> spec_fn(
    QuizTagV,
) -> bool {
    |t: QuizTagV| !(t.id == id && t.quiz_id == quiz_id)
}

pub open spec fn quiz_tag_survives_delete(
    pre: StoreView,
    tid: Seq<char>,
    id: Seq<char>,
    quiz_id: Seq<char>,
) -> bool {
    exists|i: int|
        0 <= i < pre.quiz_tags.len() && pre.quiz_tags[i].id == tid && !(pre.quiz_tags[i].id == id
            && pre.quiz_tags[i].quiz_id == quiz_id)
}

pub open spec fn qlink_survives_quiz_tag_delete(
    pre: StoreView,
    id: Seq<char>,
    quiz_id: Seq<char>,
) -> spec_fn(QuestionTagLinkV) -> bool {
    |l: QuestionTagLinkV| quiz_tag_survives_delete(pre, l.tag_id, id, quiz_id)
}

pub open spec fn qlink_not_pair(question_id: Seq<char>, tag_id: Seq<char>) -> spec_fn(
    QuestionTagLinkV,
) -> bool {
    |l: QuestionTagLinkV| !(l.question_id == question_id && l.tag_id == tag_id)
}

pub open spec fn rel_distinct_quiz_tag() -> spec_fn(QuizTagV, QuizTagV) -> bool {
    |a: QuizTagV, b: QuizTagV| a.id != b.id
}

pub open spec fn rel_distinct_qlink() -> spec_fn(QuestionTagLinkV, QuestionTagLinkV) -> bool {
    |a: QuestionTagLinkV, b: QuestionTagLinkV| !(a.question_id == b.question_id && a.tag_id
        == b.tag_id)
}

impl Store {
    /// Creates a quiz tag under a caller-supplied identifier. Succeeds
    /// exactly when the quiz exists and the identifier is free.
    pub fn create_quiz_tag_with_id(&mut self, id: String, quiz_id: &str, name: &str) -> (r: Result<
        QuizTag,
        AppError,
    >)
        requires
            old(self).wf(),
        ensures
            final(self).wf(),
            r matches Ok(t) ==> t@.id == id@ && t@.quiz_id == quiz_id@ && t@.name == name@
                && final(self)@ == (StoreView {
                quiz_tags: old(self)@.quiz_tags.push(t@),
                ..old(self)@
            }),
            r is Ok <==> (has_quiz(old(self)@, quiz_id@) && !has_quiz_tag(old(self)@, id@)),
            r is Err ==> final(self)@ == old(self)@,
            !has_quiz(old(self)@, quiz_id@) ==> r == Result::<QuizTag, AppError>::Err(
                AppError::NotFound,
            ),
            r is Err && has_quiz(old(self)@, quiz_id@) ==> r == Result::<QuizTag, AppError>::Err(
                AppError::Store,
            ),
    {
        if self.find_quiz(quiz_id).is_none() {
            return Result::Err(AppError::NotFound);
        }
        if self.find_quiz_tag(id.as_str()).is_some() {
            return Result::Err(AppError::Store);
        }
        let t = QuizTag { id, quiz_id: quiz_id.to_owned(), name: name.to_owned() };
        let ghost pre = self@;
        let ghost tv = t@;
        self.quiz_tags.push(t.clone());
        proof {
            assert(self@ =~= (StoreView { quiz_tags: pre.quiz_tags.push(tv), ..pre }));
            lemma_push_preserves_membership(pre, self@);
        }
        Result::Ok(t)
    }

    /// Creates a quiz tag, generating a fresh identifier.
    pub fn create_quiz_tag(&mut self, quiz_id: &str, name: &str) -> (r: Result<QuizTag, AppError>)
        requires
            old(self).wf(),
        ensures
            final(self).wf(),
            r matches Ok(t) ==> t@.quiz_id == quiz_id@ && t@.name == name@ && final(self)@
                == (StoreView { quiz_tags: old(self)@.quiz_tags.push(t@), ..old(self)@ }),
            r is Err ==> final(self)@ == old(self)@,
            !has_quiz(old(self)@, quiz_id@) ==> r == Result::<QuizTag, AppError>::Err(
                AppError::NotFound,
            ),
    {
        let id = fresh_id();
        self.create_quiz_tag_with_id(id, quiz_id, name)
    }

    /// Lists the tags of one quiz, in store order.
    pub fn get_tags_for_quiz(&self, quiz_id: &str) -> (r: Vec<QuizTag>)
        requires
            self.wf(),
        ensures
            r@.map_values(|t: QuizTag| t@) == quiz_tags_of_quiz(self@, quiz_id@),
    {
        let n = self.quiz_tags.len();
        let mut r: Vec<QuizTag> = Vec::new();
        let mut i: usize = 0;
        while i < n
            invariant
                n == self.quiz_tags.len(),
                i <= n,
                r@.map_values(|t: QuizTag| t@) == self@.quiz_tags.take(i as int).filter(
                    quiz_tag_of_quiz(quiz_id@),
                ),
            decreases n - i,
        {
            proof {
                self@.quiz_tags.lemma_take_succ_push(i as int);
                lemma_filter_push(
                    self@.quiz_tags.take(i as int),
                    self@.quiz_tags[i as int],
                    quiz_tag_of_quiz(quiz_id@),
                );
            }
            if str_eq(self.quiz_tags[i].quiz_id.as_str(), quiz_id) {
                let t = self.quiz_tags[i].clone();
                proof {
                    assert(r@.push(t).map_values(|x: QuizTag| x@) =~= r@.map_values(
                        |x: QuizTag| x@,
                    ).push(t@));
                }
                r.push(t);
            }
            i += 1;
        }
        proof {
            self@.quiz_tags.lemma_take_len();
        }
        r
    }

    /// The first tag of a quiz carrying a given name, if any.
    pub fn get_quiz_tag_by_name(&self, quiz_id: &str, name: &str) -> (r: Option<QuizTag>)
        requires
            self.wf(),
        ensures
            match r {
                Option::Some(t) => exists|i: int|
                    0 <= i < self@.quiz_tags.len() && self@.quiz_tags[i] == t@ && t@.quiz_id
                        == quiz_id@ && t@.name == name@,
                Option::None => !(exists|i: int|
                    0 <= i < self@.quiz_tags.len() && (#[trigger] self@.quiz_tags[i]).quiz_id
                        == quiz_id@ && self@.quiz_tags[i].name == name@),
            },
    {
        let n = self.quiz_tags.len();
        let mut i: usize = 0;
        while i < n
            invariant
                n == self.quiz_tags.len(),
                i <= n,
                forall|j: int|
                    0 <= j < i ==> !((#[trigger] self@.quiz_tags[j]).quiz_id == quiz_id@
                        && self@.quiz_tags[j].name == name@),
            decreases n - i,
        {
            if str_eq(self.quiz_tags[i].quiz_id.as_str(), quiz_id) && str_eq(
                self.quiz_tags[i].name.as_str(),
                name,
            ) {
                let t = self.quiz_tags[i].clone();
                proof {
                    assert(self@.quiz_tags[i as int] == t@ && t@.quiz_id == quiz_id@ && t@.name
                        == name@);
                }
                return Option::Some(t);
            }
            i += 1;
        }
        Option::None
    }

    /// Deletes a quiz tag and the links that attached it to questions.
    pub fn delete_quiz_tag(&mut self, quiz_id: &str, tag_id: &str)
        requires
            old(self).wf(),
        ensures
            final(self).wf(),
            final(self)@ == (StoreView {
                quiz_tags: old(self)@.quiz_tags.filter(quiz_tag_not_matching(tag_id@, quiz_id@)),
                question_tags: old(self)@.question_tags.filter(
                    qlink_survives_quiz_tag_delete(old(self)@, tag_id@, quiz_id@),
                ),
                ..old(self)@
            }),
    {
        let ghost pre = self@;
        let mut kept_tags: Vec<QuizTag> = Vec::new();
        let nt = self.quiz_tags.len();
        let mut i: usize = 0;
        while i < nt
            invariant
                self@ == pre,
                nt == self.quiz_tags.len(),
                i <= nt,
                kept_tags@.map_values(|x: QuizTag| x@) == pre.quiz_tags.take(i as int).filter(
                    quiz_tag_not_matching(tag_id@, quiz_id@),
                ),
            decreases nt - i,
        {
            proof {
                pre.quiz_tags.lemma_take_succ_push(i as int);
                lemma_filter_push(
                    pre.quiz_tags.take(i as int),
                    pre.quiz_tags[i as int],
                    quiz_tag_not_matching(tag_id@, quiz_id@),
                );
            }
            if !(str_eq(self.quiz_tags[i].id.as_str(), tag_id) && str_eq(
                self.quiz_tags[i].quiz_id.as_str(),
                quiz_id,
            )) {
                kept_tags.push(self.quiz_tags[i].clone());
            }
            i += 1;
        }
        proof {
            pre.quiz_tags.lemma_take_len();
        }
        self.quiz_tags = kept_tags;
        let mut kept_links: Vec<QuestionTagLink> = Vec::new();
        let nl = self.question_tags.len();
        let mut i: usize = 0;
        while i < nl
            invariant
                self@ == (StoreView {
                    quiz_tags: pre.quiz_tags.filter(quiz_tag_not_matching(tag_id@, quiz_id@)),
                    ..pre
                }),
                nl == self.question_tags.len(),
                i <= nl,
                kept_links@.map_values(|x: QuestionTagLink| x@) == pre.question_tags.take(
                    i as int,
                ).filter(qlink_survives_quiz_tag_delete(pre, tag_id@, quiz_id@)),
            decreases nl - i,
        {
            let ghost lv = self@.question_tags[i as int];
            proof {
                pre.question_tags.lemma_take_succ_push(i as int);
                lemma_filter_push(
                    pre.question_tags.take(i as int),
                    pre.question_tags[i as int],
                    qlink_survives_quiz_tag_delete(pre, tag_id@, quiz_id@),
                );
                lemma_filter_exists(
                    pre.quiz_tags,
                    quiz_tag_not_matching(tag_id@, quiz_id@),
                    |t: QuizTagV| t.id == lv.tag_id,
                );
            }
            if self.find_quiz_tag(self.question_tags[i].tag_id.as_str()).is_some() {
                let l = QuestionTagLink {
                    question_id: self.question_tags[i].question_id.clone(),
                    tag_id: self.question_tags[i].tag_id.clone(),
                };
                kept_links.push(l);
            }
            i += 1;
        }
        proof {
            pre.question_tags.lemma_take_len();
        }
        self.question_tags = kept_links;
        proof {
            assert(self@ =~= (StoreView {
                quiz_tags: pre.quiz_tags.filter(quiz_tag_not_matching(tag_id@, quiz_id@)),
                question_tags: pre.question_tags.filter(
                    qlink_survives_quiz_tag_delete(pre, tag_id@, quiz_id@),
                ),
                ..pre
            }));
            lemma_quiz_tag_delete_preserves_inv(pre, self@, tag_id@, quiz_id@);
        }
    }

    fn find_qlink(&self, question_id: &str, tag_id: &str) -> (r: Option<usize>)
        ensures
            match r {
                Option::Some(i) => i < self@.question_tags.len() && self@.question_tags[
                    i as int
                ].question_id == question_id@ && self@.question_tags[i as int].tag_id == tag_id@,
                Option::None => !has_question_tag_link(self@, question_id@, tag_id@),
            },
    {
        let n = self.question_tags.len();
        let mut i: usize = 0;
        while i < n
            invariant
                n == self.question_tags.len(),
                i <= n,
                forall|j: int|
                    0 <= j < i ==> !((#[trigger] self@.question_tags[j]).question_id
                        == question_id@ && self@.question_tags[j].tag_id == tag_id@),
            decreases n - i,
        {
            if str_eq(self.question_tags[i].question_id.as_str(), question_id) && str_eq(
                self.question_tags[i].tag_id.as_str(),
                tag_id,
            ) {
                return Option::Some(i);
            }
            i += 1;
        }
        Option::None
    }

    /// Attaches a quiz tag to a question; an already-attached pair is a
    /// no-op. Fails exactly when the question or the tag does not exist.
    pub fn add_tag_to_question(&mut self, question_id: &str, tag_id: &str) -> (r: Result<
        (),
        AppError,
    >)
        requires
            old(self).wf(),
        ensures
            final(self).wf(),
            r is Ok <==> (has_question(old(self)@, question_id@) && has_quiz_tag(
                old(self)@,
                tag_id@,
            )),
            r is Ok && has_question_tag_link(old(self)@, question_id@, tag_id@) ==> final(self)@
                == old(self)@,
            r is Ok && !has_question_tag_link(old(self)@, question_id@, tag_id@) ==> final(self)@
                == (StoreView {
                question_tags: old(self)@.question_tags.push(
                    QuestionTagLinkV { question_id: question_id@, tag_id: tag_id@ },
                ),
                ..old(self)@
            }),
            r is Err ==> final(self)@ == old(self)@ && r == Result::<(), AppError>::Err(
                AppError::Store,
            ),
    {
        if self.find_question(question_id).is_none() {
            return Result::Err(AppError::Store);
        }
        if self.find_quiz_tag(tag_id).is_none() {
            return Result::Err(AppError::Store);
        }
        let ghost pre = self@;
        if self.find_qlink(question_id, tag_id).is_none() {
            let l = QuestionTagLink {
                question_id: question_id.to_owned(),
                tag_id: tag_id.to_owned(),
            };
            self.question_tags.push(l);
            proof {
                assert(self@ =~= (StoreView {
                    question_tags: pre.question_tags.push(
                        QuestionTagLinkV { question_id: question_id@, tag_id: tag_id@ },
                    ),
                    ..pre
                }));
                lemma_push_preserves_membership(pre, self@);
            }
        }
        Result::Ok(())
    }

    /// Detaches a quiz tag from a question; an absent pair changes
    /// nothing.
    pub fn remove_tag_from_question(&mut self, question_id: &str, tag_id: &str)
        requires
            old(self).wf(),
        ensures
            final(self).wf(),
            final(self)@ == (StoreView {
                question_tags: old(self)@.question_tags.filter(
                    qlink_not_pair(question_id@, tag_id@),
                ),
                ..old(self)@
            }),
    {
        let ghost pre = self@;
        let mut kept: Vec<QuestionTagLink> = Vec::new();
        let n = self.question_tags.len();
        let mut i: usize = 0;
        while i < n
            invariant
                self@ == pre,
                n == self.question_tags.len(),
                i <= n,
                kept@.map_values(|x: QuestionTagLink| x@) == pre.question_tags.take(
                    i as int,
                ).filter(qlink_not_pair(question_id@, tag_id@)),
            decreases n - i,
        {
            proof {
                pre.question_tags.lemma_take_succ_push(i as int);
                lemma_filter_push(
                    pre.question_tags.take(i as int),
                    pre.question_tags[i as int],
                    qlink_not_pair(question_id@, tag_id@),
                );
            }
            if !(str_eq(self.question_tags[i].question_id.as_str(), question_id) && str_eq(
                self.question_tags[i].tag_id.as_str(),
                tag_id,
            )) {
                let l = QuestionTagLink {
                    question_id: self.question_tags[i].question_id.clone(),
                    tag_id: self.question_tags[i].tag_id.clone(),
                };
                kept.push(l);
            }
            i += 1;
        }
        proof {
            pre.question_tags.lemma_take_len();
        }
        self.question_tags = kept;
        proof {
            broadcast use vstd::seq_lib::group_filter_ensures;

            assert(self@ =~= (StoreView {
                question_tags: pre.question_tags.filter(qlink_not_pair(question_id@, tag_id@)),
                ..pre
            }));
            let fl = pre.question_tags.filter(qlink_not_pair(question_id@, tag_id@));
            lemma_filter_pairwise(
                pre.question_tags,
                qlink_not_pair(question_id@, tag_id@),
                rel_distinct_qlink(),
            );
            assert forall|a: int, b: int|
                0 <= a < b < self@.question_tags.len() implies !(self@.question_tags[a].question_id
                == self@.question_tags[b].question_id && self@.question_tags[a].tag_id
                == self@.question_tags[b].tag_id) by {
                assert(rel_distinct_qlink()(fl[a], fl[b]));
            }
            assert forall|a: int| 0 <= a < self@.question_tags.len() implies has_question(
                self@,
                (#[trigger] self@.question_tags[a]).question_id,
            ) && has_quiz_tag(self@, self@.question_tags[a].tag_id) by {
                let k = choose|k: int|
                    0 <= k < pre.question_tags.len() && pre.question_tags[k] == fl[a];
                assert(has_question(pre, pre.question_tags[k].question_id));
                let m = choose|m: int|
                    0 <= m < pre.questions.len() && pre.questions[m].id == pre.question_tags[
                        k
                    ].question_id;
                assert(self@.questions[m].id == self@.question_tags[a].question_id);
                assert(has_quiz_tag(pre, pre.question_tags[k].tag_id));
                let w = choose|w: int|
                    0 <= w < pre.quiz_tags.len() && pre.quiz_tags[w].id == pre.question_tags[
                        k
                    ].tag_id;
                assert(self@.quiz_tags[w].id == self@.question_tags[a].tag_id);
            }
            assert(inv_users(self@)) by {
                match pre.active_user {
                    Option::Some(uid) => {
                        assert(has_user(pre, uid));
                    },
                    Option::None => {},
                }
            }
        }
    }
}

/// Deleting a quiz tag and its question links preserves the invariant.
proof fn lemma_quiz_tag_delete_preserves_inv(
    pre: StoreView,
    post: StoreView,
    tag_id: Seq<char>,
    quiz_id: Seq<char>,
)
    requires
        inv(pre),
        post == (StoreView {
            quiz_tags: pre.quiz_tags.filter(quiz_tag_not_matching(tag_id, quiz_id)),
            question_tags: pre.question_tags.filter(
                qlink_survives_quiz_tag_delete(pre, tag_id, quiz_id),
            ),
            ..pre
        }),
    ensures
        inv(post),
{
    broadcast use vstd::seq_lib::group_filter_ensures;

    let ft = pre.quiz_tags.filter(quiz_tag_not_matching(tag_id, quiz_id));
    let fl = pre.question_tags.filter(qlink_survives_quiz_tag_delete(pre, tag_id, quiz_id));
    lemma_filter_pairwise(
        pre.quiz_tags,
        quiz_tag_not_matching(tag_id, quiz_id),
        rel_distinct_quiz_tag(),
    );
    lemma_filter_pairwise(
        pre.question_tags,
        qlink_survives_quiz_tag_delete(pre, tag_id, quiz_id),
        rel_distinct_qlink(),
    );
    assert forall|i: int, j: int| 0 <= i < j < post.quiz_tags.len() implies post.quiz_tags[i].id
        != post.quiz_tags[j].id by {
        assert(rel_distinct_quiz_tag()(ft[i], ft[j]));
    }
    assert forall|i: int| 0 <= i < post.quiz_tags.len() implies has_quiz(
        post,
        (#[trigger] post.quiz_tags[i]).quiz_id,
    ) by {
        let k = choose|k: int| 0 <= k < pre.quiz_tags.len() && pre.quiz_tags[k] == ft[i];
        assert(has_quiz(pre, pre.quiz_tags[k].quiz_id));
    }
    assert forall|i: int, j: int| 0 <= i < j < post.question_tags.len() implies !(post.question_tags[i].question_id
        == post.question_tags[j].question_id && post.question_tags[i].tag_id
        == post.question_tags[j].tag_id) by {
        assert(rel_distinct_qlink()(fl[i], fl[j]));
    }
    assert forall|i: int| 0 <= i < post.question_tags.len() implies has_question(
        post,
        (#[trigger] post.question_tags[i]).question_id,
    ) && has_quiz_tag(post, post.question_tags[i].tag_id) by {
        assert(qlink_survives_quiz_tag_delete(pre, tag_id, quiz_id)(fl[i]));
        let l = fl[i];
        lemma_filter_exists(
            pre.quiz_tags,
            quiz_tag_not_matching(tag_id, quiz_id),
            |t: QuizTagV| t.id == l.tag_id,
        );
        assert(quiz_tag_survives_delete(pre, l.tag_id, tag_id, quiz_id));
        assert(exists|x: int|
            0 <= x < pre.quiz_tags.len() && quiz_tag_not_matching(tag_id, quiz_id)(
                #[trigger] pre.quiz_tags[x],
            ) && pre.quiz_tags[x].id == l.tag_id);
        let k = choose|k: int| 0 <= k < pre.question_tags.len() && pre.question_tags[k] == fl[i];
        assert(has_question(pre, pre.question_tags[k].question_id));
    }
    assert(inv_users(post)) by {
        match pre.active_user {
            Option::Some(uid) => {
                assert(has_user(pre, uid));
            },
            Option::None => {},
        }
    }
    assert(inv_cards(post)) by {
        assert forall|i: int| 0 <= i < post.cards.len() implies has_deck(
            post,
            (#[trigger] post.cards[i]).deck_id,
        ) && post.cards[i].tags.len() == 0 by {
            assert(has_deck(pre, pre.cards[i].deck_id));
        }
    }
    assert(inv_tags(post)) by {
        assert forall|i: int| 0 <= i < post.tags.len() implies has_deck(
            post,
            (#[trigger] post.tags[i]).deck_id,
        ) by {
            assert(has_deck(pre, pre.tags[i].deck_id));
        }
    }
    assert(inv_card_tags(post)) by {
        assert forall|i: int| 0 <= i < post.card_tags.len() implies has_card(
            post,
            (#[trigger] post.card_tags[i]).card_id,
        ) && has_tag(post, post.card_tags[i].tag_id) by {
            assert(has_card(pre, pre.card_tags[i].card_id));
            assert(has_tag(pre, pre.card_tags[i].tag_id));
        }
    }
    assert(inv_questions(post)) by {
        assert forall|i: int| 0 <= i < post.questions.len() implies has_quiz(
            post,
            (#[trigger] post.questions[i]).quiz_id,
        ) && post.questions[i].choices.len() == 0 && post.questions[i].tags.len() == 0 by {
            assert(has_quiz(pre, pre.questions[i].quiz_id));
        }
    }
    assert(inv_choices(post)) by {
        assert forall|i: int| 0 <= i < post.choices.len() implies has_question(
            post,
            (#[trigger] post.choices[i]).question_id,
        ) by {
            assert(has_question(pre, pre.choices[i].question_id));
        }
    }
}

// ============================================
// Question and quiz deletion, reordering
// ============================================
pub open spec fn question_not(id: Seq<char>) -> spec_fn(QuestionV) -> bool {
    |q: QuestionV| q.id != id
}

pub open spec fn choice_not_of_question(id: Seq<char>) -> spec_fn(ChoiceV) -> bool {
    |c: ChoiceV| c.question_id != id
}

pub open spec fn qlink_not_of_question(id: Seq<char>) -> spec_fn(QuestionTagLinkV) -> bool {
    |l: QuestionTagLinkV| l.question_id != id
}

pub open spec fn quiz_not(id: Seq<char>) -> spec_fn(QuizV) -> bool {
    |z: QuizV| z.id != id
}

pub open spec fn question_not_of_quiz(del: Seq<char>) -> spec_fn(QuestionV) -> bool {
    |q: QuestionV| q.quiz_id != del
}

pub open spec fn quiz_tag_not_of_quiz(del: Seq<char>) -> spec_fn(QuizTagV) -> bool {
    |t: QuizTagV| t.quiz_id != del
}

pub open spec fn question_survives_quiz_delete(
    pre: StoreView,
    qid: Seq<char>,
    del: Seq<char>,
) -> bool {
    exists|i: int|
        0 <= i < pre.questions.len() && pre.questions[i].id == qid && pre.questions[i].quiz_id
            != del
}

pub open spec fn quiz_tag_survives_quiz_delete(
    pre: StoreView,
    tid: Seq<char>,
    del: Seq<char>,
) -> bool {
    exists|i: int|
        0 <= i < pre.quiz_tags.len() && pre.quiz_tags[i].id == tid && pre.quiz_tags[i].quiz_id
            != del
}

pub open spec fn choice_survives_quiz_delete(pre: StoreView, del: Seq<char>) -> spec_fn(
    ChoiceV,
) -> bool {
    |c: ChoiceV| question_survives_quiz_delete(pre, c.question_id, del)
}

pub open spec fn qlink_survives_quiz_delete(pre: StoreView, del: Seq<char>) -> spec_fn(
    QuestionTagLinkV,
) -> bool {
    |l: QuestionTagLinkV| question_survives_quiz_delete(pre, l.question_id, del)
        && quiz_tag_survives_quiz_delete(pre, l.tag_id, del)
}

pub open spec fn rel_distinct_question() -> spec_fn(QuestionV, QuestionV) -> bool {
    |a: QuestionV, b: QuestionV| a.id != b.id
}

pub open spec fn rel_distinct_choice() -> spec_fn(ChoiceV, ChoiceV) -> bool {
    |a: ChoiceV, b: ChoiceV| a.id != b.id
}

pub open spec fn rel_distinct_quiz() -> spec_fn(QuizV, QuizV) -> bool {
    |a: QuizV, b: QuizV| a.id != b.id
}

/// One position assignment of a reorder request: the question with the
/// given identifier in the given quiz, if it exists, takes the position.
pub open spec fn set_position(
    qs: Seq<QuestionV>,
    quiz_id: Seq<char>,
    id: Seq<char>,
    pos: i32,
) -> Seq<QuestionV> {
    if exists|i: int|
        0 <= i < qs.len() && qs[i].id == id && qs[i].quiz_id == quiz_id {
        let i = choose|i: int| 0 <= i < qs.len() && qs[i].id == id && qs[i].quiz_id == quiz_id;
        qs.update(i, QuestionV { position: pos, ..qs[i] })
    } else {
        qs
    }
}

/// The effect of a reorder request: each listed question takes the
/// position of its index in the list, in order.
pub open spec fn reorder_from(
    qs: Seq<QuestionV>,
    quiz_id: Seq<char>,
    ids: Seq<Seq<char>>,
    k: int,
) -> Seq<QuestionV>
    decreases ids.len(),
{
    if ids.len() == 0 {
        qs
    } else {
        reorder_from(set_position(qs, quiz_id, ids[0], k as i32), quiz_id, ids.drop_first(), k + 1)
    }
}

proof fn lemma_reorder_from_push(
    qs: Seq<QuestionV>,
    quiz_id: Seq<char>,
    ids: Seq<Seq<char>>,
    x: Seq<char>,
    k: int,
)
    ensures
        reorder_from(qs, quiz_id, ids.push(x), k) == set_position(
            reorder_from(qs, quiz_id, ids, k),
            quiz_id,
            x,
            ((k + ids.len()) as i32),
        ),
    decreases ids.len(),
{
    if ids.len() == 0 {
        assert(ids.push(x)[0] == x);
        assert(ids.push(x).drop_first() =~= Seq::<Seq<char>>::empty());
        assert(reorder_from(qs, quiz_id, ids.push(x), k) == reorder_from(
            set_position(qs, quiz_id, x, k as i32),
            quiz_id,
            ids.push(x).drop_first(),
            k + 1,
        ));
        assert(reorder_from(
            set_position(qs, quiz_id, x, k as i32),
            quiz_id,
            Seq::<Seq<char>>::empty(),
            k + 1,
        ) == set_position(qs, quiz_id, x, k as i32));
        assert(reorder_from(qs, quiz_id, ids, k) == qs);
    } else {
        assert(ids.push(x)[0] == ids[0]);
        assert(ids.push(x).drop_first() =~= ids.drop_first().push(x));
        assert(reorder_from(qs, quiz_id, ids.push(x), k) == reorder_from(
            set_position(qs, quiz_id, ids[0], k as i32),
            quiz_id,
            ids.drop_first().push(x),
            k + 1,
        ));
        assert(reorder_from(qs, quiz_id, ids, k) == reorder_from(
            set_position(qs, quiz_id, ids[0], k as i32),
            quiz_id,
            ids.drop_first(),
            k + 1,
        ));
        lemma_reorder_from_push(
            set_position(qs, quiz_id, ids[0], k as i32),
            quiz_id,
            ids.drop_first(),
            x,
            k + 1,
        );
        assert((k + 1 + ids.drop_first().len()) as i32 == (k + ids.len()) as i32);
    }
}

impl Store {
    /// Deletes a question, cascading to its choices and tag links.
    pub fn delete_question(&mut self, question_id: &str)
        requires
            old(self).wf(),
        ensures
            final(self).wf(),
            final(self)@ == (StoreView {
                questions: old(self)@.questions.filter(question_not(question_id@)),
                choices: old(self)@.choices.filter(choice_not_of_question(question_id@)),
                question_tags: old(self)@.question_tags.filter(
                    qlink_not_of_question(question_id@),
                ),
                ..old(self)@
            }),
            !has_question(final(self)@, question_id@),
    {
        let ghost pre = self@;
        let mut kept_q: Vec<Question> = Vec::new();
        let nq = self.questions.len();
        let mut i: usize = 0;
        while i < nq
            invariant
                self@ == pre,
                nq == self.questions.len(),
                i <= nq,
                kept_q@.map_values(|x: Question| x@) == pre.questions.take(i as int).filter(
                    question_not(question_id@),
                ),
            decreases nq - i,
        {
            proof {
                pre.questions.lemma_take_succ_push(i as int);
                lemma_filter_push(
                    pre.questions.take(i as int),
                    pre.questions[i as int],
                    question_not(question_id@),
                );
            }
            if !str_eq(self.questions[i].id.as_str(), question_id) {
                kept_q.push(self.questions[i].clone());
            }
            i += 1;
        }
        proof {
            pre.questions.lemma_take_len();
        }
        let mut kept_c: Vec<Choice> = Vec::new();
        let nc = self.choices.len();
        let mut i: usize = 0;
        while i < nc
            invariant
                self@ == pre,
                nc == self.choices.len(),
                i <= nc,
                kept_c@.map_values(|x: Choice| x@) == pre.choices.take(i as int).filter(
                    choice_not_of_question(question_id@),
                ),
            decreases nc - i,
        {
            proof {
                pre.choices.lemma_take_succ_push(i as int);
                lemma_filter_push(
                    pre.choices.take(i as int),
                    pre.choices[i as int],
                    choice_not_of_question(question_id@),
                );
            }
            if !str_eq(self.choices[i].question_id.as_str(), question_id) {
                kept_c.push(self.choices[i].clone());
            }
            i += 1;
        }
        proof {
            pre.choices.lemma_take_len();
        }
        let mut kept_l: Vec<QuestionTagLink> = Vec::new();
        let nl = self.question_tags.len();
        let mut i: usize = 0;
        while i < nl
            invariant
                self@ == pre,
                nl == self.question_tags.len(),
                i <= nl,
                kept_l@.map_values(|x: QuestionTagLink| x@) == pre.question_tags.take(
                    i as int,
                ).filter(qlink_not_of_question(question_id@)),
            decreases nl - i,
        {
            proof {
                pre.question_tags.lemma_take_succ_push(i as int);
                lemma_filter_push(
                    pre.question_tags.take(i as int),
                    pre.question_tags[i as int],
                    qlink_not_of_question(question_id@),
                );
            }
            if !str_eq(self.question_tags[i].question_id.as_str(), question_id) {
                let l = QuestionTagLink {
                    question_id: self.question_tags[i].question_id.clone(),
                    tag_id: self.question_tags[i].tag_id.clone(),
                };
                kept_l.push(l);
            }
            i += 1;
        }
        proof {
            pre.question_tags.lemma_take_len();
        }
        self.questions = kept_q;
        self.choices = kept_c;
        self.question_tags = kept_l;
        proof {
            assert(self@ =~= (StoreView {
                questions: pre.questions.filter(question_not(question_id@)),
                choices: pre.choices.filter(choice_not_of_question(question_id@)),
                question_tags: pre.question_tags.filter(qlink_not_of_question(question_id@)),
                ..pre
            }));
            lemma_question_delete_preserves_inv(pre, self@, question_id@);
            assert forall|a: int| 0 <= a < self@.questions.len() implies (
            #[trigger] self@.questions[a]).id != question_id@ by {
                broadcast use vstd::seq_lib::group_filter_ensures;

                assert(question_not(question_id@)(self@.questions[a]));
            }
        }
    }

    /// Deletes a quiz, cascading to its questions, their choices and tag
    /// links, and its quiz tags.
    pub fn delete_quiz(&mut self, quiz_id: &str)
        requires
            old(self).wf(),
        ensures
            final(self).wf(),
            final(self)@ == (StoreView {
                quizzes: old(self)@.quizzes.filter(quiz_not(quiz_id@)),
                questions: old(self)@.questions.filter(question_not_of_quiz(quiz_id@)),
                choices: old(self)@.choices.filter(choice_survives_quiz_delete(old(self)@, quiz_id@)),
                question_tags: old(self)@.question_tags.filter(
                    qlink_survives_quiz_delete(old(self)@, quiz_id@),
                ),
                quiz_tags: old(self)@.quiz_tags.filter(quiz_tag_not_of_quiz(quiz_id@)),
                ..old(self)@
            }),
            !has_quiz(final(self)@, quiz_id@),
    {
        let ghost pre = self@;
        // Quizzes
        let mut kept_z: Vec<Quiz> = Vec::new();
        let nz = self.quizzes.len();
        let mut i: usize = 0;
        while i < nz
            invariant
                self@ == pre,
                nz == self.quizzes.len(),
                i <= nz,
                kept_z@.map_values(|x: Quiz| x@) == pre.quizzes.take(i as int).filter(
                    quiz_not(quiz_id@),
                ),
            decreases nz - i,
        {
            proof {
                pre.quizzes.lemma_take_succ_push(i as int);
                lemma_filter_push(
                    pre.quizzes.take(i as int),
                    pre.quizzes[i as int],
                    quiz_not(quiz_id@),
                );
            }
            if !str_eq(self.quizzes[i].id.as_str(), quiz_id) {
                kept_z.push(self.quizzes[i].clone());
            }
            i += 1;
        }
        proof {
            pre.quizzes.lemma_take_len();
        }
        // Questions
        let mut kept_q: Vec<Question> = Vec::new();
        let nq = self.questions.len();
        let mut i: usize = 0;
        while i < nq
            invariant
                self@ == pre,
                nq == self.questions.len(),
                i <= nq,
                kept_q@.map_values(|x: Question| x@) == pre.questions.take(i as int).filter(
                    question_not_of_quiz(quiz_id@),
                ),
            decreases nq - i,
        {
            proof {
                pre.questions.lemma_take_succ_push(i as int);
                lemma_filter_push(
                    pre.questions.take(i as int),
                    pre.questions[i as int],
                    question_not_of_quiz(quiz_id@),
                );
            }
            if !str_eq(self.questions[i].quiz_id.as_str(), quiz_id) {
                kept_q.push(self.questions[i].clone());
            }
            i += 1;
        }
        proof {
            pre.questions.lemma_take_len();
        }
        // Quiz tags
        let mut kept_t: Vec<QuizTag> = Vec::new();
        let nt = self.quiz_tags.len();
        let mut i: usize = 0;
        while i < nt
            invariant
                self@ == pre,
                nt == self.quiz_tags.len(),
                i <= nt,
                kept_t@.map_values(|x: QuizTag| x@) == pre.quiz_tags.take(i as int).filter(
                    quiz_tag_not_of_quiz(quiz_id@),
                ),
            decreases nt - i,
        {
            proof {
                pre.quiz_tags.lemma_take_succ_push(i as int);
                lemma_filter_push(
                    pre.quiz_tags.take(i as int),
                    pre.quiz_tags[i as int],
                    quiz_tag_not_of_quiz(quiz_id@),
                );
            }
            if !str_eq(self.quiz_tags[i].quiz_id.as_str(), quiz_id) {
                kept_t.push(self.quiz_tags[i].clone());
            }
            i += 1;
        }
        proof {
            pre.quiz_tags.lemma_take_len();
        }
        self.quizzes = kept_z;
        self.questions = kept_q;
        self.quiz_tags = kept_t;
        // Choices of surviving questions
        let mut kept_c: Vec<Choice> = Vec::new();
        let nc = self.choices.len();
        let ghost mid = self@;
        let mut i: usize = 0;
        while i < nc
            invariant
                self@ == mid,
                mid.choices == pre.choices,
                mid.questions == pre.questions.filter(question_not_of_quiz(quiz_id@)),
                nc == self.choices.len(),
                i <= nc,
                kept_c@.map_values(|x: Choice| x@) == pre.choices.take(i as int).filter(
                    choice_survives_quiz_delete(pre, quiz_id@),
                ),
            decreases nc - i,
        {
            let ghost cv = self@.choices[i as int];
            proof {
                pre.choices.lemma_take_succ_push(i as int);
                lemma_filter_push(
                    pre.choices.take(i as int),
                    pre.choices[i as int],
                    choice_survives_quiz_delete(pre, quiz_id@),
                );
                lemma_filter_exists(
                    pre.questions,
                    question_not_of_quiz(quiz_id@),
                    |q: QuestionV| q.id == cv.question_id,
                );
            }
            if self.find_question(self.choices[i].question_id.as_str()).is_some() {
                kept_c.push(self.choices[i].clone());
            }
            i += 1;
        }
        proof {
            pre.choices.lemma_take_len();
        }
        self.choices = kept_c;
        // Tag links of surviving questions and tags
        let mut kept_l: Vec<QuestionTagLink> = Vec::new();
        let nl = self.question_tags.len();
        let ghost mid2 = self@;
        let mut i: usize = 0;
        while i < nl
            invariant
                self@ == mid2,
                mid2.question_tags == pre.question_tags,
                mid2.questions == pre.questions.filter(question_not_of_quiz(quiz_id@)),
                mid2.quiz_tags == pre.quiz_tags.filter(quiz_tag_not_of_quiz(quiz_id@)),
                nl == self.question_tags.len(),
                i <= nl,
                kept_l@.map_values(|x: QuestionTagLink| x@) == pre.question_tags.take(
                    i as int,
                ).filter(qlink_survives_quiz_delete(pre, quiz_id@)),
            decreases nl - i,
        {
            let ghost lv = self@.question_tags[i as int];
            proof {
                pre.question_tags.lemma_take_succ_push(i as int);
                lemma_filter_push(
                    pre.question_tags.take(i as int),
                    pre.question_tags[i as int],
                    qlink_survives_quiz_delete(pre, quiz_id@),
                );
                lemma_filter_exists(
                    pre.questions,
                    question_not_of_quiz(quiz_id@),
                    |q: QuestionV| q.id == lv.question_id,
                );
                lemma_filter_exists(
                    pre.quiz_tags,
                    quiz_tag_not_of_quiz(quiz_id@),
                    |t: QuizTagV| t.id == lv.tag_id,
                );
            }
            if self.find_question(self.question_tags[i].question_id.as_str()).is_some()
                && self.find_quiz_tag(self.question_tags[i].tag_id.as_str()).is_some() {
                let l = QuestionTagLink {
                    question_id: self.question_tags[i].question_id.clone(),
                    tag_id: self.question_tags[i].tag_id.clone(),
                };
                kept_l.push(l);
            }
            i += 1;
        }
        proof {
            pre.question_tags.lemma_take_len();
        }
        self.question_tags = kept_l;
        proof {
            assert(self@ =~= (StoreView {
                quizzes: pre.quizzes.filter(quiz_not(quiz_id@)),
                questions: pre.questions.filter(question_not_of_quiz(quiz_id@)),
                choices: pre.choices.filter(choice_survives_quiz_delete(pre, quiz_id@)),
                question_tags: pre.question_tags.filter(qlink_survives_quiz_delete(pre, quiz_id@)),
                quiz_tags: pre.quiz_tags.filter(quiz_tag_not_of_quiz(quiz_id@)),
                ..pre
            }));
            lemma_quiz_delete_preserves_inv(pre, self@, quiz_id@);
            assert forall|a: int| 0 <= a < self@.quizzes.len() implies (
            #[trigger] self@.quizzes[a]).id != quiz_id@ by {
                broadcast use vstd::seq_lib::group_filter_ensures;

                assert(quiz_not(quiz_id@)(self@.quizzes[a]));
            }
        }
    }

    fn find_question_in_quiz(&self, id: &str, quiz_id: &str) -> (r: Option<usize>)
        ensures
            match r {
                Option::Some(i) => i < self@.questions.len() && self@.questions[i as int].id == id@
                    && self@.questions[i as int].quiz_id == quiz_id@,
                Option::None => !(exists|i: int|
                    0 <= i < self@.questions.len() && (#[trigger] self@.questions[i]).id == id@
                        && self@.questions[i].quiz_id == quiz_id@),
            },
    {
        let n = self.questions.len();
        let mut i: usize = 0;
        while i < n
            invariant
                n == self.questions.len(),
                i <= n,
                forall|j: int|
                    0 <= j < i ==> !((#[trigger] self@.questions[j]).id == id@
                        && self@.questions[j].quiz_id == quiz_id@),
            decreases n - i,
        {
            if str_eq(self.questions[i].id.as_str(), id) && str_eq(
                self.questions[i].quiz_id.as_str(),
                quiz_id,
            ) {
                return Option::Some(i);
            }
            i += 1;
        }
        Option::None
    }

    /// Gives the listed questions of one quiz the positions of their
    /// indices in the list, in order; identifiers that match nothing in
    /// the quiz are ignored. Rejects lists too long for a position.
    pub fn reorder_questions(&mut self, quiz_id: &str, question_ids: &Vec<String>) -> (r: Result<
        (),
        AppError,
    >)
        requires
            old(self).wf(),
        ensures
            final(self).wf(),
            r is Ok <==> question_ids@.len() <= i32::MAX,
            r is Ok ==> final(self)@ == (StoreView {
                questions: reorder_from(
                    old(self)@.questions,
                    quiz_id@,
                    question_ids@.map_values(|s: String| s@),
                    0,
                ),
                ..old(self)@
            }),
            r is Err ==> final(self)@ == old(self)@ && r == Result::<(), AppError>::Err(
                AppError::Validation,
            ),
    {
        if question_ids.len() > (i32::MAX as usize) {
            return Result::Err(AppError::Validation);
        }
        let ghost pre = self@;
        let ghost ids = question_ids@.map_values(|s: String| s@);
        let n = question_ids.len();
        let mut k: usize = 0;
        while k < n
            invariant
                old(self).wf(),
                self.wf(),
                n == question_ids@.len(),
                n <= i32::MAX,
                ids == question_ids@.map_values(|s: String| s@),
                pre == old(self)@,
                k <= n,
                self@ == (StoreView {
                    questions: reorder_from(pre.questions, quiz_id@, ids.take(k as int), 0),
                    ..pre
                }),
            decreases n - k,
        {
            let ghost qs = self@.questions;
            proof {
                lemma_reorder_from_push(pre.questions, quiz_id@, ids.take(k as int), ids[k as int], 0);
                assert(ids.take(k as int).push(ids[k as int]) =~= ids.take(k as int + 1));
            }
            match self.find_question_in_quiz(question_ids[k].as_str(), quiz_id) {
                Option::Some(i) => {
                    let current = &self.questions[i];
                    let stored = Question {
                        id: current.id.clone(),
                        quiz_id: current.quiz_id.clone(),
                        question_type: current.question_type,
                        content: current.content.clone(),
                        content_type: current.content_type.clone(),
                        content_language: clone_opt_string(&current.content_language),
                        correct_answer: clone_opt_string(&current.correct_answer),
                        multiple_answers: current.multiple_answers,
                        explanation: clone_opt_string(&current.explanation),
                        position: k as i32,
                        created_at: current.created_at,
                        updated_at: current.updated_at,
                        choices: Vec::new(),
                        tags: Vec::new(),
                    };
                    let ghost prev = self@;
                    self.questions.set(i, stored);
                    proof {
                        let j = choose|j: int|
                            0 <= j < qs.len() && qs[j].id == ids[k as int] && qs[j].quiz_id
                                == quiz_id@;
                        assert forall|a: int|
                            0 <= a < qs.len() && #[trigger] qs[a].id == ids[k as int] && qs[a].quiz_id
                                == quiz_id@ implies a == i as int by {
                            if a != i as int {
                                assert(qs[a].id != qs[i as int].id);
                            }
                        }
                        assert(j == i as int);
                        assert(self@.questions =~~= set_position(
                            qs,
                            quiz_id@,
                            ids[k as int],
                            k as i32,
                        ));
                        assert(self@ =~~= (StoreView {
                            questions: reorder_from(
                                pre.questions,
                                quiz_id@,
                                ids.take(k as int + 1),
                                0,
                            ),
                            ..pre
                        }));
                        lemma_update_question_same_id_preserves_inv(prev, self@, i as int);
                    }
                },
                Option::None => {
                    proof {
                        assert(set_position(qs, quiz_id@, ids[k as int], k as i32) == qs);
                        assert(self@ =~~= (StoreView {
                            questions: reorder_from(
                                pre.questions,
                                quiz_id@,
                                ids.take(k as int + 1),
                                0,
                            ),
                            ..pre
                        }));
                    }
                },
            }
            k += 1;
        }
        proof {
            ids.lemma_take_len();
        }
        Result::Ok(())
    }
}

/// Replacing the whole choice block of one question — its old choices
/// filtered out, a fresh block appended — preserves the invariant.
proof fn lemma_choices_replace_preserves_inv(
    pre: StoreView,
    post: StoreView,
    qid: Seq<char>,
    cs: Seq<ChoiceV>,
)
    requires
        inv(pre),
        has_question(pre, qid),
        forall|i: int| 0 <= i < cs.len() ==> (#[trigger] cs[i]).question_id == qid,
        forall|i: int| 0 <= i < cs.len() ==> !has_choice(pre, (#[trigger] cs[i]).id),
        forall|i: int, j: int| 0 <= i < j < cs.len() ==> cs[i].id != cs[j].id,
        post == (StoreView {
            choices: pre.choices.filter(choice_not_of_question(qid)) + cs,
            ..pre
        }),
    ensures
        inv(post),
{
    broadcast use vstd::seq_lib::group_filter_ensures;

    let fc = pre.choices.filter(choice_not_of_question(qid));
    lemma_filter_pairwise(pre.choices, choice_not_of_question(qid), rel_distinct_choice());
    assert forall|i: int, j: int| 0 <= i < j < post.choices.len() implies post.choices[i].id
        != post.choices[j].id by {
        if j < fc.len() {
            assert(rel_distinct_choice()(fc[i], fc[j]));
        } else if i < fc.len() {
            let k = choose|k: int| 0 <= k < pre.choices.len() && pre.choices[k] == fc[i];
            assert(pre.choices[k].id == fc[i].id);
            assert(!has_choice(pre, cs[j - fc.len()].id));
        } else {
            assert(cs[i - fc.len()].id != cs[j - fc.len()].id);
        }
    }
    assert forall|i: int| 0 <= i < post.choices.len() implies has_question(
        post,
        (#[trigger] post.choices[i]).question_id,
    ) by {
        if i < fc.len() {
            let k = choose|k: int| 0 <= k < pre.choices.len() && pre.choices[k] == fc[i];
            assert(has_question(pre, pre.choices[k].question_id));
        } else {
            assert(post.choices[i].question_id == qid);
        }
    }
    assert(inv_users(post)) by {
        match pre.active_user {
            Option::Some(uid) => {
                assert(has_user(pre, uid));
            },
            Option::None => {},
        }
    }
}

/// Deleting a question and its children preserves the invariant.
proof fn lemma_question_delete_preserves_inv(pre: StoreView, post: StoreView, id: Seq<char>)
    requires
        inv(pre),
        post == (StoreView {
            questions: pre.questions.filter(question_not(id)),
            choices: pre.choices.filter(choice_not_of_question(id)),
            question_tags: pre.question_tags.filter(qlink_not_of_question(id)),
            ..pre
        }),
    ensures
        inv(post),
{
    broadcast use vstd::seq_lib::group_filter_ensures;

    let fq = pre.questions.filter(question_not(id));
    let fc = pre.choices.filter(choice_not_of_question(id));
    let fl = pre.question_tags.filter(qlink_not_of_question(id));
    lemma_filter_pairwise(pre.questions, question_not(id), rel_distinct_question());
    lemma_filter_pairwise(pre.choices, choice_not_of_question(id), rel_distinct_choice());
    lemma_filter_pairwise(pre.question_tags, qlink_not_of_question(id), rel_distinct_qlink());
    assert forall|i: int, j: int| 0 <= i < j < post.questions.len() implies post.questions[i].id
        != post.questions[j].id by {
        assert(rel_distinct_question()(fq[i], fq[j]));
    }
    assert forall|i: int| 0 <= i < post.questions.len() implies has_quiz(
        post,
        (#[trigger] post.questions[i]).quiz_id,
    ) && post.questions[i].choices.len() == 0 && post.questions[i].tags.len() == 0 by {
        let k = choose|k: int| 0 <= k < pre.questions.len() && pre.questions[k] == fq[i];
        assert(has_quiz(pre, pre.questions[k].quiz_id));
    }
    assert forall|i: int, j: int| 0 <= i < j < post.choices.len() implies post.choices[i].id
        != post.choices[j].id by {
        assert(rel_distinct_choice()(fc[i], fc[j]));
    }
    assert forall|i: int| 0 <= i < post.choices.len() implies has_question(
        post,
        (#[trigger] post.choices[i]).question_id,
    ) by {
        assert(choice_not_of_question(id)(fc[i]));
        let k = choose|k: int| 0 <= k < pre.choices.len() && pre.choices[k] == fc[i];
        assert(has_question(pre, pre.choices[k].question_id));
        let m = choose|m: int|
            0 <= m < pre.questions.len() && pre.questions[m].id == pre.choices[k].question_id;
        assert(question_not(id)(pre.questions[m]));
        assert(fq.contains(pre.questions[m]));
        let w = choose|w: int| 0 <= w < fq.len() && fq[w] == pre.questions[m];
        assert(post.questions[w].id == post.choices[i].question_id);
    }
    assert forall|i: int, j: int| 0 <= i < j < post.question_tags.len() implies !(post.question_tags[i].question_id
        == post.question_tags[j].question_id && post.question_tags[i].tag_id
        == post.question_tags[j].tag_id) by {
        assert(rel_distinct_qlink()(fl[i], fl[j]));
    }
    assert forall|i: int| 0 <= i < post.question_tags.len() implies has_question(
        post,
        (#[trigger] post.question_tags[i]).question_id,
    ) && has_quiz_tag(post, post.question_tags[i].tag_id) by {
        assert(qlink_not_of_question(id)(fl[i]));
        let k = choose|k: int| 0 <= k < pre.question_tags.len() && pre.question_tags[k] == fl[i];
        assert(has_question(pre, pre.question_tags[k].question_id));
        let m = choose|m: int|
            0 <= m < pre.questions.len() && pre.questions[m].id == pre.question_tags[
                k
            ].question_id;
        assert(question_not(id)(pre.questions[m]));
        assert(fq.contains(pre.questions[m]));
        let w = choose|w: int| 0 <= w < fq.len() && fq[w] == pre.questions[m];
        assert(post.questions[w].id == post.question_tags[i].question_id);
        assert(has_quiz_tag(pre, pre.question_tags[k].tag_id));
        let z = choose|z: int|
            0 <= z < pre.quiz_tags.len() && pre.quiz_tags[z].id == pre.question_tags[k].tag_id;
        assert(post.quiz_tags[z].id == post.question_tags[i].tag_id);
    }
    assert(inv_users(post)) by {
        match pre.active_user {
            Option::Some(uid) => {
                assert(has_user(pre, uid));
            },
            Option::None => {},
        }
    }
    assert(inv_cards(post)) by {
        assert forall|i: int| 0 <= i < post.cards.len() implies has_deck(
            post,
            (#[trigger] post.cards[i]).deck_id,
        ) && post.cards[i].tags.len() == 0 by {
            assert(has_deck(pre, pre.cards[i].deck_id));
        }
    }
    assert(inv_tags(post)) by {
        assert forall|i: int| 0 <= i < post.tags.len() implies has_deck(
            post,
            (#[trigger] post.tags[i]).deck_id,
        ) by {
            assert(has_deck(pre, pre.tags[i].deck_id));
        }
    }
    assert(inv_card_tags(post)) by {
        assert forall|i: int| 0 <= i < post.card_tags.len() implies has_card(
            post,
            (#[trigger] post.card_tags[i]).card_id,
        ) && has_tag(post, post.card_tags[i].tag_id) by {
            assert(has_card(pre, pre.card_tags[i].card_id));
            assert(has_tag(pre, pre.card_tags[i].tag_id));
        }
    }
    assert(inv_quiz_tags(post)) by {
        assert forall|i: int| 0 <= i < post.quiz_tags.len() implies has_quiz(
            post,
            (#[trigger] post.quiz_tags[i]).quiz_id,
        ) by {
            assert(has_quiz(pre, pre.quiz_tags[i].quiz_id));
        }
    }
}

/// Deleting a quiz and everything scoped to it preserves the invariant.
#[verifier::rlimit(100)]
proof fn lemma_quiz_delete_preserves_inv(pre: StoreView, post: StoreView, del: Seq<char>)
    requires
        inv(pre),
        post == (StoreView {
            quizzes: pre.quizzes.filter(quiz_not(del)),
            questions: pre.questions.filter(question_not_of_quiz(del)),
            choices: pre.choices.filter(choice_survives_quiz_delete(pre, del)),
            question_tags: pre.question_tags.filter(qlink_survives_quiz_delete(pre, del)),
            quiz_tags: pre.quiz_tags.filter(quiz_tag_not_of_quiz(del)),
            ..pre
        }),
    ensures
        inv(post),
{
    broadcast use vstd::seq_lib::group_filter_ensures;

    let fz = pre.quizzes.filter(quiz_not(del));
    let fq = pre.questions.filter(question_not_of_quiz(del));
    let fc = pre.choices.filter(choice_survives_quiz_delete(pre, del));
    let fl = pre.question_tags.filter(qlink_survives_quiz_delete(pre, del));
    let ft = pre.quiz_tags.filter(quiz_tag_not_of_quiz(del));
    lemma_filter_pairwise(pre.quizzes, quiz_not(del), rel_distinct_quiz());
    lemma_filter_pairwise(pre.questions, question_not_of_quiz(del), rel_distinct_question());
    lemma_filter_pairwise(pre.choices, choice_survives_quiz_delete(pre, del), rel_distinct_choice());
    lemma_filter_pairwise(
        pre.question_tags,
        qlink_survives_quiz_delete(pre, del),
        rel_distinct_qlink(),
    );
    lemma_filter_pairwise(pre.quiz_tags, quiz_tag_not_of_quiz(del), rel_distinct_quiz_tag());
    assert forall|i: int, j: int| 0 <= i < j < post.quizzes.len() implies post.quizzes[i].id
        != post.quizzes[j].id by {
        assert(rel_distinct_quiz()(fz[i], fz[j]));
    }
    assert forall|i: int| 0 <= i < post.quizzes.len() implies (
    #[trigger] post.quizzes[i]).questions.len() == 0 && post.quizzes[i].question_count.is_none() by {
        let k = choose|k: int| 0 <= k < pre.quizzes.len() && pre.quizzes[k] == fz[i];
    }
    assert forall|i: int, j: int| 0 <= i < j < post.questions.len() implies post.questions[i].id
        != post.questions[j].id by {
        assert(rel_distinct_question()(fq[i], fq[j]));
    }
    assert forall|i: int| 0 <= i < post.questions.len() implies has_quiz(
        post,
        (#[trigger] post.questions[i]).quiz_id,
    ) && post.questions[i].choices.len() == 0 && post.questions[i].tags.len() == 0 by {
        assert(question_not_of_quiz(del)(fq[i]));
        let k = choose|k: int| 0 <= k < pre.questions.len() && pre.questions[k] == fq[i];
        assert(has_quiz(pre, pre.questions[k].quiz_id));
        let m = choose|m: int|
            0 <= m < pre.quizzes.len() && pre.quizzes[m].id == pre.questions[k].quiz_id;
        assert(quiz_not(del)(pre.quizzes[m]));
        assert(fz.contains(pre.quizzes[m]));
        let w = choose|w: int| 0 <= w < fz.len() && fz[w] == pre.quizzes[m];
        assert(post.quizzes[w].id == post.questions[i].quiz_id);
    }
    assert forall|i: int, j: int| 0 <= i < j < post.choices.len() implies post.choices[i].id
        != post.choices[j].id by {
        assert(rel_distinct_choice()(fc[i], fc[j]));
    }
    assert forall|i: int| 0 <= i < post.choices.len() implies has_question(
        post,
        (#[trigger] post.choices[i]).question_id,
    ) by {
        assert(choice_survives_quiz_delete(pre, del)(fc[i]));
        let l = fc[i];
        lemma_filter_exists(
            pre.questions,
            question_not_of_quiz(del),
            |q: QuestionV| q.id == l.question_id,
        );
        assert(question_survives_quiz_delete(pre, l.question_id, del));
        assert(exists|x: int|
            0 <= x < pre.questions.len() && question_not_of_quiz(del)(#[trigger] pre.questions[x])
                && pre.questions[x].id == l.question_id);
    }
    assert forall|i: int, j: int| 0 <= i < j < post.question_tags.len() implies !(post.question_tags[i].question_id
        == post.question_tags[j].question_id && post.question_tags[i].tag_id
        == post.question_tags[j].tag_id) by {
        assert(rel_distinct_qlink()(fl[i], fl[j]));
    }
    assert forall|i: int| 0 <= i < post.question_tags.len() implies has_question(
        post,
        (#[trigger] post.question_tags[i]).question_id,
    ) && has_quiz_tag(post, post.question_tags[i].tag_id) by {
        assert(qlink_survives_quiz_delete(pre, del)(fl[i]));
        let l = fl[i];
        lemma_filter_exists(
            pre.questions,
            question_not_of_quiz(del),
            |q: QuestionV| q.id == l.question_id,
        );
        assert(question_survives_quiz_delete(pre, l.question_id, del));
        assert(exists|x: int|
            0 <= x < pre.questions.len() && question_not_of_quiz(del)(#[trigger] pre.questions[x])
                && pre.questions[x].id == l.question_id);
        lemma_filter_exists(
            pre.quiz_tags,
            quiz_tag_not_of_quiz(del),
            |t: QuizTagV| t.id == l.tag_id,
        );
        assert(quiz_tag_survives_quiz_delete(pre, l.tag_id, del));
        assert(exists|x: int|
            0 <= x < pre.quiz_tags.len() && quiz_tag_not_of_quiz(del)(#[trigger] pre.quiz_tags[x])
                && pre.quiz_tags[x].id == l.tag_id);
    }
    assert forall|i: int, j: int| 0 <= i < j < post.quiz_tags.len() implies post.quiz_tags[i].id
        != post.quiz_tags[j].id by {
        assert(rel_distinct_quiz_tag()(ft[i], ft[j]));
    }
    assert forall|i: int| 0 <= i < post.quiz_tags.len() implies has_quiz(
        post,
        (#[trigger] post.quiz_tags[i]).quiz_id,
    ) by {
        assert(quiz_tag_not_of_quiz(del)(ft[i]));
        let k = choose|k: int| 0 <= k < pre.quiz_tags.len() && pre.quiz_tags[k] == ft[i];
        assert(has_quiz(pre, pre.quiz_tags[k].quiz_id));
        let m = choose|m: int|
            0 <= m < pre.quizzes.len() && pre.quizzes[m].id == pre.quiz_tags[k].quiz_id;
        assert(quiz_not(del)(pre.quizzes[m]));
        assert(fz.contains(pre.quizzes[m]));
        let w = choose|w: int| 0 <= w < fz.len() && fz[w] == pre.quizzes[m];
        assert(post.quizzes[w].id == post.quiz_tags[i].quiz_id);
    }
    assert(inv_users(post)) by {
        match pre.active_user {
            Option::Some(uid) => {
                assert(has_user(pre, uid));
            },
            Option::None => {},
        }
    }
    assert(inv_cards(post)) by {
        assert forall|i: int| 0 <= i < post.cards.len() implies has_deck(
            post,
            (#[trigger] post.cards[i]).deck_id,
        ) && post.cards[i].tags.len() == 0 by {
            assert(has_deck(pre, pre.cards[i].deck_id));
        }
    }
    assert(inv_tags(post)) by {
        assert forall|i: int| 0 <= i < post.tags.len() implies has_deck(
            post,
            (#[trigger] post.tags[i]).deck_id,
        ) by {
            assert(has_deck(pre, pre.tags[i].deck_id));
        }
    }
    assert(inv_card_tags(post)) by {
        assert forall|i: int| 0 <= i < post.card_tags.len() implies has_card(
            post,
            (#[trigger] post.card_tags[i]).card_id,
        ) && has_tag(post, post.card_tags[i].tag_id) by {
            assert(has_card(pre, pre.card_tags[i].card_id));
            assert(has_tag(pre, pre.card_tags[i].tag_id));
        }
    }
}

pub open spec fn user_not(id: Seq<char>) -> spec_fn(UserRowV) -> bool {
    |u: UserRowV| u.id != id
}

/// With distinct user identifiers, any matching index is unique.
proof fn lemma_user_id_unique(v: StoreView, i: int, id: Seq<char>)
    requires
        inv(v),
        0 <= i < v.users.len(),
        v.users[i].id == id,
    ensures
        forall|j: int| 0 <= j < v.users.len() && (#[trigger] v.users[j]).id == id ==> j == i,
{
    assert forall|j: int|
        0 <= j < v.users.len() && (#[trigger] v.users[j]).id == id implies j == i by {
        if j != i {
            assert(v.users[i].id != v.users[j].id);
        }
    }
}

/// The attempts made against one quiz.
pub open spec fn attempt_of_quiz(qid: Seq<char>) -> spec_fn(QuizAttemptV) -> bool {
    |a: QuizAttemptV| a.quiz_id == qid
}

/// Insertion step of the attempt listing's order: most recently started
/// first; an equal start time keeps store order.
pub open spec fn insert_by_started(a: QuizAttemptV, s: Seq<QuizAttemptV>) -> Seq<QuizAttemptV>
    decreases s.len(),
{
    if s.len() == 0 {
        seq![a]
    } else if a.started_at > s[0].started_at {
        seq![a] + s
    } else {
        seq![s[0]] + insert_by_started(a, s.drop_first())
    }
}

/// Stable sort of attempts by start time, newest first.
pub open spec fn sort_by_started(s: Seq<QuizAttemptV>) -> Seq<QuizAttemptV>
    decreases s.len(),
{
    if s.len() == 0 {
        Seq::empty()
    } else {
        insert_by_started(s.last(), sort_by_started(s.drop_last()))
    }
}

pub proof fn lemma_insert_by_started_len(a: QuizAttemptV, s: Seq<QuizAttemptV>)
    ensures
        insert_by_started(a, s).len() == s.len() + 1,
    decreases s.len(),
{
    if s.len() > 0 && !(a.started_at > s[0].started_at) {
        lemma_insert_by_started_len(a, s.drop_first());
    }
}

pub proof fn lemma_sort_by_started_len(s: Seq<QuizAttemptV>)
    ensures
        sort_by_started(s).len() == s.len(),
    decreases s.len(),
{
    if s.len() > 0 {
        lemma_sort_by_started_len(s.drop_last());
        lemma_insert_by_started_len(s.last(), sort_by_started(s.drop_last()));
    }
}

/// Skipping a sorted prefix whose start times are not below the
/// inserted attempt's commutes with insertion.
proof fn lemma_insert_by_started_skip(a: QuizAttemptV, s: Seq<QuizAttemptV>, idx: int)
    requires
        0 <= idx <= s.len(),
        forall|k: int| 0 <= k < idx ==> !(a.started_at > (#[trigger] s[k]).started_at),
    ensures
        insert_by_started(a, s) == s.take(idx) + insert_by_started(a, s.skip(idx)),
    decreases idx,
{
    if idx == 0 {
        assert(s.skip(0) == s);
        assert(s.take(0) + insert_by_started(a, s) =~= insert_by_started(a, s));
    } else {
        assert(s.len() > 0);
        assert(!(a.started_at > s[0].started_at));
        lemma_insert_by_started_skip(a, s.drop_first(), idx - 1);
        assert(s.drop_first().take(idx - 1) =~= s.take(idx).drop_first());
        assert(s.drop_first().skip(idx - 1) =~= s.skip(idx));
        assert(seq![s[0]] + (s.drop_first().take(idx - 1) + insert_by_started(
            a,
            s.drop_first().skip(idx - 1),
        )) =~= s.take(idx) + insert_by_started(a, s.skip(idx)));
    }
}

/// Inserts one attempt into a listing already sorted newest start
/// first.
fn insert_attempt_by_started(r: &mut Vec<QuizAttempt>, a: QuizAttempt)
    ensures
        final(r)@.map_values(|x: QuizAttempt| x@) == insert_by_started(
            a@,
            old(r)@.map_values(|x: QuizAttempt| x@),
        ),
{
    let ghost s = r@.map_values(|x: QuizAttempt| x@);
    let n = r.len();
    let mut idx: usize = 0;
    while idx < n && !(a.started_at > r[idx].started_at)
        invariant
            n == r.len(),
            s == r@.map_values(|x: QuizAttempt| x@),
            idx <= n,
            forall|k: int| 0 <= k < idx ==> !(a@.started_at > (#[trigger] s[k]).started_at),
        decreases n - idx,
    {
        idx += 1;
    }
    proof {
        lemma_insert_by_started_skip(a@, s, idx as int);
        if idx < n {
            assert(s.skip(idx as int)[0] == s[idx as int]);
            assert(insert_by_started(a@, s.skip(idx as int)) == seq![a@] + s.skip(idx as int));
        } else {
            assert(s.skip(idx as int).len() == 0);
        }
    }
    r.insert(idx, a);
    proof {
        assert(r@.map_values(|x: QuizAttempt| x@) =~= s.take(idx as int) + insert_by_started(
            a@,
            s.skip(idx as int),
        ));
    }
}

/// With distinct attempt identifiers, any property of the row at a
/// matching index is a property of every matching index.
proof fn lemma_attempt_id_unique(v: StoreView, i: int, id: Seq<char>)
    requires
        inv(v),
        0 <= i < v.attempts.len(),
        v.attempts[i].id == id,
    ensures
        forall|j: int| 0 <= j < v.attempts.len() && (#[trigger] v.attempts[j]).id == id ==> j == i,
{
    assert forall|j: int|
        0 <= j < v.attempts.len() && (#[trigger] v.attempts[j]).id == id implies j == i by {
        if j != i {
            assert(v.attempts[i].id != v.attempts[j].id);
        }
    }
}

/// The attempt-row preconditions of a submission: the attempt is not
/// yet completed (finalization is terminal), the completion clock does
/// not precede its start (a negative duration is malformed input), and
/// no more answers than questions were handed in. A refusal on any of
/// these grounds is a validation error.
pub open spec fn submit_row_ok(
    v: StoreView,
    attempt_id: Seq<char>,
    n_answers: int,
    now: int,
) -> bool {
    forall|i: int|
        0 <= i < v.attempts.len() && (#[trigger] v.attempts[i]).id == attempt_id ==> {
            &&& v.attempts[i].completed_at.is_none()
            &&& now >= v.attempts[i].started_at
            &&& n_answers <= v.attempts[i].total_questions
        }
}

/// Every precondition of a successful submission, judged against one
/// store state: the attempt exists, its row accepts the submission, and
/// every answer names an existing question.
pub open spec fn submit_ok(
    v: StoreView,
    attempt_id: Seq<char>,
    answers: Seq<QuestionAnswer>,
    now: int,
) -> bool {
    &&& has_attempt(v, attempt_id)
    &&& submit_row_ok(v, attempt_id, answers.len() as int, now)
    &&& (forall|k: int|
        0 <= k < answers.len() ==> has_question(v, (#[trigger] answers[k]).question_id@))
}

/// Finalizing one attempt and appending its result rows preserves the
/// store invariant.
proof fn lemma_submit_preserves_inv(
    pre: StoreView,
    post: StoreView,
    i: int,
    results: Seq<QuestionResultV>,
    answers: Seq<QuestionAnswer>,
    now: int,
)
    requires
        inv(pre),
        attempt_submitted(pre, post, i, results, answers, now),
        now >= pre.attempts[i].started_at,
        now <= i64::MAX,
        answers.len() <= pre.attempts[i].total_questions,
    ensures
        inv(post),
{
    lemma_count_correct_bound(pre, answers);
    crate::grading::lemma_score_bounds(
        count_correct(pre, answers),
        pre.attempts[i].total_questions as int,
    );
    assert forall|a: int, b: int| 0 <= a < b < post.attempts.len() implies post.attempts[a].id
        != post.attempts[b].id by {
        assert(pre.attempts[a].id != pre.attempts[b].id);
    }
    assert forall|a: int| 0 <= a < post.attempts.len() implies {
        &&& (#[trigger] post.attempts[a]).started_at >= 0
        &&& post.attempts[a].question_results.len() == 0
        &&& attempt_completed_ok(post.attempts[a])
    } by {
        if a != i {
            assert(post.attempts[a] == pre.attempts[a]);
        } else {
            assert(pre.attempts[i].started_at >= 0);
            assert(pre.attempts[i].question_results.len() == 0);
        }
    }
    assert(inv_users(post)) by {
        match pre.active_user {
            Option::Some(uid) => {
                assert(has_user(pre, uid));
            },
            Option::None => {},
        }
    }
    assert(inv_cards(post)) by {
        assert forall|a: int| 0 <= a < post.cards.len() implies has_deck(
            post,
            (#[trigger] post.cards[a]).deck_id,
        ) && post.cards[a].tags.len() == 0 by {
            assert(has_deck(pre, pre.cards[a].deck_id));
        }
    }
    assert(inv_tags(post)) by {
        assert forall|a: int| 0 <= a < post.tags.len() implies has_deck(
            post,
            (#[trigger] post.tags[a]).deck_id,
        ) by {
            assert(has_deck(pre, pre.tags[a].deck_id));
        }
    }
    assert(inv_card_tags(post)) by {
        assert forall|a: int| 0 <= a < post.card_tags.len() implies has_card(
            post,
            (#[trigger] post.card_tags[a]).card_id,
        ) && has_tag(post, post.card_tags[a].tag_id) by {
            assert(has_card(pre, pre.card_tags[a].card_id));
            assert(has_tag(pre, pre.card_tags[a].tag_id));
        }
    }
    assert(inv_questions(post)) by {
        assert forall|a: int| 0 <= a < post.questions.len() implies has_quiz(
            post,
            (#[trigger] post.questions[a]).quiz_id,
        ) && post.questions[a].choices.len() == 0 && post.questions[a].tags.len() == 0 by {
            assert(has_quiz(pre, pre.questions[a].quiz_id));
        }
    }
    assert(inv_choices(post)) by {
        assert forall|a: int| 0 <= a < post.choices.len() implies has_question(
            post,
            (#[trigger] post.choices[a]).question_id,
        ) by {
            assert(has_question(pre, pre.choices[a].question_id));
        }
    }
    assert(inv_quiz_tags(post)) by {
        assert forall|a: int| 0 <= a < post.quiz_tags.len() implies has_quiz(
            post,
            (#[trigger] post.quiz_tags[a]).quiz_id,
        ) by {
            assert(has_quiz(pre, pre.quiz_tags[a].quiz_id));
        }
    }
    assert(inv_question_tags(post)) by {
        assert forall|a: int| 0 <= a < post.question_tags.len() implies has_question(
            post,
            (#[trigger] post.question_tags[a]).question_id,
        ) && has_quiz_tag(post, post.question_tags[a].tag_id) by {
            assert(has_question(pre, pre.question_tags[a].question_id));
            assert(has_quiz_tag(pre, pre.question_tags[a].tag_id));
        }
    }
}

/// Replacing one quiz row by another with the same identifier (and no
/// derived data) preserves the store invariant.
proof fn lemma_update_quiz_same_id_preserves_inv(pre: StoreView, post: StoreView, at: int)
    requires
        inv(pre),
        0 <= at < pre.quizzes.len(),
        post.quizzes.len() == pre.quizzes.len(),
        forall|i: int| 0 <= i < pre.quizzes.len() && i != at ==> post.quizzes[i] == pre.quizzes[i],
        post.quizzes[at].id == pre.quizzes[at].id,
        post.quizzes[at].questions.len() == 0,
        post.quizzes[at].question_count.is_none(),
        post == (StoreView { quizzes: post.quizzes, ..pre }),
    ensures
        inv(post),
{
    assert forall|i: int, j: int| 0 <= i < j < post.quizzes.len() implies post.quizzes[i].id
        != post.quizzes[j].id by {
        assert(pre.quizzes[i].id != pre.quizzes[j].id);
    }
    assert forall|i: int| 0 <= i < post.questions.len() implies has_quiz(
        post,
        (#[trigger] post.questions[i]).quiz_id,
    ) && post.questions[i].choices.len() == 0 && post.questions[i].tags.len() == 0 by {
        assert(has_quiz(pre, pre.questions[i].quiz_id));
        let k = choose|k: int|
            0 <= k < pre.quizzes.len() && pre.quizzes[k].id == pre.questions[i].quiz_id;
        assert(post.quizzes[k].id == post.questions[i].quiz_id);
    }
    assert forall|i: int| 0 <= i < post.quiz_tags.len() implies has_quiz(
        post,
        (#[trigger] post.quiz_tags[i]).quiz_id,
    ) by {
        assert(has_quiz(pre, pre.quiz_tags[i].quiz_id));
        let k = choose|k: int|
            0 <= k < pre.quizzes.len() && pre.quizzes[k].id == pre.quiz_tags[i].quiz_id;
        assert(post.quizzes[k].id == post.quiz_tags[i].quiz_id);
    }
    assert(inv_users(post)) by {
        match pre.active_user {
            Option::Some(uid) => {
                assert(has_user(pre, uid));
            },
            Option::None => {},
        }
    }
}

/// Replacing one question row by another with the same identifier, quiz
/// and no derived data preserves the store invariant.
proof fn lemma_update_question_same_id_preserves_inv(pre: StoreView, post: StoreView, at: int)
    requires
        inv(pre),
        0 <= at < pre.questions.len(),
        post.questions.len() == pre.questions.len(),
        forall|i: int|
            0 <= i < pre.questions.len() && i != at ==> post.questions[i] == pre.questions[i],
        post.questions[at].id == pre.questions[at].id,
        post.questions[at].quiz_id == pre.questions[at].quiz_id,
        post.questions[at].choices.len() == 0,
        post.questions[at].tags.len() == 0,
        post == (StoreView { questions: post.questions, ..pre }),
    ensures
        inv(post),
{
    assert forall|i: int, j: int| 0 <= i < j < post.questions.len() implies post.questions[i].id
        != post.questions[j].id by {
        assert(pre.questions[i].id != pre.questions[j].id);
    }
    assert forall|i: int| 0 <= i < post.questions.len() implies has_quiz(
        post,
        (#[trigger] post.questions[i]).quiz_id,
    ) by {
        assert(has_quiz(pre, pre.questions[i].quiz_id));
    }
    assert forall|i: int| 0 <= i < post.choices.len() implies has_question(
        post,
        (#[trigger] post.choices[i]).question_id,
    ) by {
        assert(has_question(pre, pre.choices[i].question_id));
        let k = choose|k: int|
            0 <= k < pre.questions.len() && pre.questions[k].id == pre.choices[i].question_id;
        assert(post.questions[k].id == post.choices[i].question_id);
    }
    assert forall|i: int| 0 <= i < post.question_tags.len() implies has_question(
        post,
        (#[trigger] post.question_tags[i]).question_id,
    ) && has_quiz_tag(post, post.question_tags[i].tag_id) by {
        assert(has_question(pre, pre.question_tags[i].question_id));
        let k = choose|k: int|
            0 <= k < pre.questions.len() && pre.questions[k].id == pre.question_tags[
                i
            ].question_id;
        assert(post.questions[k].id == post.question_tags[i].question_id);
        assert(has_quiz_tag(pre, pre.question_tags[i].tag_id));
        let m = choose|m: int|
            0 <= m < pre.quiz_tags.len() && pre.quiz_tags[m].id == pre.question_tags[i].tag_id;
        assert(post.quiz_tags[m].id == post.question_tags[i].tag_id);
    }
    assert(inv_users(post)) by {
        match pre.active_user {
            Option::Some(uid) => {
                assert(has_user(pre, uid));
            },
            Option::None => {},
        }
    }
}

/// Appending one question row and its fresh block of choices preserves
/// the store invariant.
proof fn lemma_question_create_preserves_inv(pre: StoreView, post: StoreView, q: QuestionV)
    requires
        inv(pre),
        has_quiz(pre, q.quiz_id),
        !has_question(pre, q.id),
        forall|i: int| 0 <= i < q.choices.len() ==> !has_choice(pre, (#[trigger] q.choices[i]).id),
        forall|i: int, j: int| 0 <= i < j < q.choices.len() ==> q.choices[i].id != q.choices[j].id,
        forall|i: int| 0 <= i < q.choices.len() ==> (#[trigger] q.choices[i]).question_id == q.id,
        post == (StoreView {
            questions: pre.questions.push(stored_question(q)),
            choices: pre.choices + q.choices,
            ..pre
        }),
    ensures
        inv(post),
{
    lemma_push_preserves_membership(pre, post);
    assert forall|i: int, j: int| 0 <= i < j < post.questions.len() implies post.questions[i].id
        != post.questions[j].id by {
        if j < pre.questions.len() {
            assert(pre.questions[i].id != pre.questions[j].id);
        } else {
            assert(post.questions[j].id == q.id);
            assert(!(exists|k: int|
                0 <= k < pre.questions.len() && pre.questions[k].id == q.id));
        }
    }
    assert forall|i: int| 0 <= i < post.questions.len() implies has_quiz(
        post,
        (#[trigger] post.questions[i]).quiz_id,
    ) && post.questions[i].choices.len() == 0 && post.questions[i].tags.len() == 0 by {
        if i < pre.questions.len() {
            assert(has_quiz(pre, pre.questions[i].quiz_id));
        } else {
            assert(post.questions[i] == stored_question(q));
        }
    }
    assert forall|i: int, j: int| 0 <= i < j < post.choices.len() implies post.choices[i].id
        != post.choices[j].id by {
        if j < pre.choices.len() {
            assert(pre.choices[i].id != pre.choices[j].id);
        } else if i < pre.choices.len() {
            assert(!has_choice(pre, q.choices[j - pre.choices.len()].id));
        } else {
            assert(q.choices[i - pre.choices.len()].id != q.choices[j - pre.choices.len()].id);
        }
    }
    assert forall|i: int| 0 <= i < post.choices.len() implies has_question(
        post,
        (#[trigger] post.choices[i]).question_id,
    ) by {
        if i < pre.choices.len() {
            assert(has_question(pre, pre.choices[i].question_id));
            let k = choose|k: int|
                0 <= k < pre.questions.len() && pre.questions[k].id == pre.choices[i].question_id;
            assert(post.questions[k].id == post.choices[i].question_id);
        } else {
            assert(post.choices[i].question_id == q.id);
            assert(post.questions[post.questions.len() - 1].id == q.id);
        }
    }
    assert forall|i: int| 0 <= i < post.question_tags.len() implies has_question(
        post,
        (#[trigger] post.question_tags[i]).question_id,
    ) && has_quiz_tag(post, post.question_tags[i].tag_id) by {
        assert(post.question_tags[i] == pre.question_tags[i]);
        assert(has_question(pre, pre.question_tags[i].question_id));
        let k = choose|k: int|
            0 <= k < pre.questions.len() && pre.questions[k].id == pre.question_tags[
                i
            ].question_id;
        assert(post.questions[k] == pre.questions[k]);
        assert(post.questions[k].id == post.question_tags[i].question_id);
        assert(has_question(post, post.question_tags[i].question_id));
        assert(has_quiz_tag(pre, pre.question_tags[i].tag_id));
        let m = choose|m: int|
            0 <= m < pre.quiz_tags.len() && pre.quiz_tags[m].id == pre.question_tags[i].tag_id;
        assert(post.quiz_tags[m].id == post.question_tags[i].tag_id);
        assert(has_quiz_tag(post, post.question_tags[i].tag_id));
    }
    assert(inv_users(post)) by {
        match pre.active_user {
            Option::Some(uid) => {
                assert(has_user(pre, uid));
            },
            Option::None => {},
        }
    }
    assert(inv_quizzes(post));
    assert(inv_decks(post));
    assert(inv_cards(post)) by {
        assert forall|i: int| 0 <= i < post.cards.len() implies has_deck(
            post,
            (#[trigger] post.cards[i]).deck_id,
        ) && post.cards[i].tags.len() == 0 by {
            assert(has_deck(pre, pre.cards[i].deck_id));
        }
    }
    assert(inv_tags(post)) by {
        assert forall|i: int| 0 <= i < post.tags.len() implies has_deck(
            post,
            (#[trigger] post.tags[i]).deck_id,
        ) by {
            assert(has_deck(pre, pre.tags[i].deck_id));
        }
    }
    assert(inv_card_tags(post)) by {
        assert forall|i: int| 0 <= i < post.card_tags.len() implies has_card(
            post,
            (#[trigger] post.card_tags[i]).card_id,
        ) && has_tag(post, post.card_tags[i].tag_id) by {
            assert(has_card(pre, pre.card_tags[i].card_id));
            assert(has_tag(pre, pre.card_tags[i].tag_id));
        }
    }
    assert(inv_quiz_tags(post)) by {
        assert forall|i: int| 0 <= i < post.quiz_tags.len() implies has_quiz(
            post,
            (#[trigger] post.quiz_tags[i]).quiz_id,
        ) by {
            assert(has_quiz(pre, pre.quiz_tags[i].quiz_id));
        }
    }
}

/// Replacing one card by another with the same identity (and no derived
/// tags) preserves the store invariant.
proof fn lemma_card_update_same_identity_preserves_inv(pre: StoreView, post: StoreView, at: int)
    requires
        inv(pre),
        0 <= at < pre.cards.len(),
        post.cards.len() == pre.cards.len(),
        forall|i: int| 0 <= i < pre.cards.len() && i != at ==> post.cards[i] == pre.cards[i],
        post.cards[at].id == pre.cards[at].id,
        post.cards[at].deck_id == pre.cards[at].deck_id,
        post.cards[at].tags.len() == 0,
        post == (StoreView { cards: post.cards, ..pre }),
    ensures
        inv(post),
{
    assert forall|i: int, j: int| 0 <= i < j < post.cards.len() implies post.cards[i].id
        != post.cards[j].id by {
        assert(pre.cards[i].id != pre.cards[j].id);
    }
    assert forall|i: int| 0 <= i < post.cards.len() implies has_deck(
        post,
        (#[trigger] post.cards[i]).deck_id,
    ) && post.cards[i].tags.len() == 0 by {
        assert(has_deck(pre, pre.cards[i].deck_id));
        let m = choose|m: int|
            0 <= m < pre.decks.len() && pre.decks[m].id == pre.cards[i].deck_id;
        assert(post.decks[m].id == post.cards[i].deck_id);
    }
    assert forall|i: int| 0 <= i < post.card_tags.len() implies has_card(
        post,
        (#[trigger] post.card_tags[i]).card_id,
    ) && has_tag(post, post.card_tags[i].tag_id) by {
        assert(has_card(pre, pre.card_tags[i].card_id));
        let k = choose|k: int|
            0 <= k < pre.cards.len() && pre.cards[k].id == pre.card_tags[i].card_id;
        assert(post.cards[k].id == post.card_tags[i].card_id);
        assert(has_tag(pre, pre.card_tags[i].tag_id));
        let w = choose|w: int|
            0 <= w < pre.tags.len() && pre.tags[w].id == pre.card_tags[i].tag_id;
        assert(post.tags[w].id == post.card_tags[i].tag_id);
    }
    assert(inv_users(post)) by {
        match pre.active_user {
            Option::Some(uid) => {
                assert(has_user(pre, uid));
                let k = choose|k: int| 0 <= k < pre.users.len() && pre.users[k].id == uid;
                assert(post.users[k].id == uid);
            },
            Option::None => {},
        }
    }
    assert(inv_tags(post)) by {
        assert forall|i: int| 0 <= i < post.tags.len() implies has_deck(
            post,
            (#[trigger] post.tags[i]).deck_id,
        ) by {
            assert(has_deck(pre, pre.tags[i].deck_id));
            let m = choose|m: int|
                0 <= m < pre.decks.len() && pre.decks[m].id == pre.tags[i].deck_id;
            assert(post.decks[m].id == post.tags[i].deck_id);
        }
    }
    assert(inv_questions(post)) by {
        assert forall|i: int| 0 <= i < post.questions.len() implies has_quiz(
            post,
            (#[trigger] post.questions[i]).quiz_id,
        ) && post.questions[i].choices.len() == 0 && post.questions[i].tags.len() == 0 by {
            assert(has_quiz(pre, pre.questions[i].quiz_id));
            let m = choose|m: int|
                0 <= m < pre.quizzes.len() && pre.quizzes[m].id == pre.questions[i].quiz_id;
            assert(post.quizzes[m].id == post.questions[i].quiz_id);
        }
    }
    assert(inv_choices(post)) by {
        assert forall|i: int| 0 <= i < post.choices.len() implies has_question(
            post,
            (#[trigger] post.choices[i]).question_id,
        ) by {
            assert(has_question(pre, pre.choices[i].question_id));
            let m = choose|m: int|
                0 <= m < pre.questions.len() && pre.questions[m].id == pre.choices[
                    i
                ].question_id;
            assert(post.questions[m].id == post.choices[i].question_id);
        }
    }
    assert(inv_quiz_tags(post)) by {
        assert forall|i: int| 0 <= i < post.quiz_tags.len() implies has_quiz(
            post,
            (#[trigger] post.quiz_tags[i]).quiz_id,
        ) by {
            assert(has_quiz(pre, pre.quiz_tags[i].quiz_id));
            let m = choose|m: int|
                0 <= m < pre.quizzes.len() && pre.quizzes[m].id == pre.quiz_tags[i].quiz_id;
            assert(post.quizzes[m].id == post.quiz_tags[i].quiz_id);
        }
    }
    assert(inv_question_tags(post)) by {
        assert forall|i: int| 0 <= i < post.question_tags.len() implies has_question(
            post,
            (#[trigger] post.question_tags[i]).question_id,
        ) && has_quiz_tag(post, post.question_tags[i].tag_id) by {
            assert(has_question(pre, pre.question_tags[i].question_id));
            let m = choose|m: int|
                0 <= m < pre.questions.len() && pre.questions[m].id == pre.question_tags[
                    i
                ].question_id;
            assert(post.questions[m].id == post.question_tags[i].question_id);
            assert(has_quiz_tag(pre, pre.question_tags[i].tag_id));
            let w = choose|w: int|
                0 <= w < pre.quiz_tags.len() && pre.quiz_tags[w].id == pre.question_tags[
                    i
                ].tag_id;
            assert(post.quiz_tags[w].id == post.question_tags[i].tag_id);
        }
    }
}

/// Deleting one card and the links attached to it preserves the store
/// invariant.
proof fn lemma_card_delete_preserves_inv(
    pre: StoreView,
    post: StoreView,
    id: Seq<char>,
    deck_id: Seq<char>,
)
    requires
        inv(pre),
        post == (StoreView {
            cards: pre.cards.filter(card_not_matching(id, deck_id)),
            card_tags: pre.card_tags.filter(link_survives_card_delete(pre, id, deck_id)),
            ..pre
        }),
    ensures
        inv(post),
{
    broadcast use vstd::seq_lib::group_filter_ensures;

    let fc = pre.cards.filter(card_not_matching(id, deck_id));
    let fl = pre.card_tags.filter(link_survives_card_delete(pre, id, deck_id));
    lemma_filter_pairwise(pre.cards, card_not_matching(id, deck_id), rel_distinct_card());
    lemma_filter_pairwise(
        pre.card_tags,
        link_survives_card_delete(pre, id, deck_id),
        rel_distinct_card_tag(),
    );
    assert forall|i: int, j: int| 0 <= i < j < post.cards.len() implies post.cards[i].id
        != post.cards[j].id by {
        assert(rel_distinct_card()(fc[i], fc[j]));
    }
    assert forall|i: int| 0 <= i < post.cards.len() implies has_deck(
        post,
        (#[trigger] post.cards[i]).deck_id,
    ) && post.cards[i].tags.len() == 0 by {
        let k = choose|k: int| 0 <= k < pre.cards.len() && pre.cards[k] == fc[i];
        assert(has_deck(pre, pre.cards[k].deck_id));
    }
    assert forall|i: int, j: int| 0 <= i < j < post.card_tags.len() implies !(post.card_tags[i].card_id
        == post.card_tags[j].card_id && post.card_tags[i].tag_id == post.card_tags[j].tag_id) by {
        assert(rel_distinct_card_tag()(fl[i], fl[j]));
    }
    assert forall|i: int| 0 <= i < post.card_tags.len() implies has_card(
        post,
        (#[trigger] post.card_tags[i]).card_id,
    ) && has_tag(post, post.card_tags[i].tag_id) by {
        assert(link_survives_card_delete(pre, id, deck_id)(fl[i]));
        let l = fl[i];
        lemma_filter_exists(
            pre.cards,
            card_not_matching(id, deck_id),
            |c: CardV| c.id == l.card_id,
        );
        assert(card_survives_card_delete(pre, l.card_id, id, deck_id));
        assert(exists|x: int|
            0 <= x < pre.cards.len() && card_not_matching(id, deck_id)(#[trigger] pre.cards[x])
                && pre.cards[x].id == l.card_id);
        let k = choose|k: int| 0 <= k < pre.card_tags.len() && pre.card_tags[k] == fl[i];
        assert(has_tag(pre, pre.card_tags[k].tag_id));
        let w = choose|w: int| 0 <= w < pre.tags.len() && pre.tags[w].id == pre.card_tags[k].tag_id;
        assert(post.tags[w].id == post.card_tags[i].tag_id);
    }
    assert(inv_users(post)) by {
        match pre.active_user {
            Option::Some(uid) => {
                assert(has_user(pre, uid));
            },
            Option::None => {},
        }
    }
    assert(inv_tags(post)) by {
        assert forall|i: int| 0 <= i < post.tags.len() implies has_deck(
            post,
            (#[trigger] post.tags[i]).deck_id,
        ) by {
            assert(has_deck(pre, pre.tags[i].deck_id));
        }
    }
    assert(inv_questions(post)) by {
        assert forall|i: int| 0 <= i < post.questions.len() implies has_quiz(
            post,
            (#[trigger] post.questions[i]).quiz_id,
        ) && post.questions[i].choices.len() == 0 && post.questions[i].tags.len() == 0 by {
            assert(has_quiz(pre, pre.questions[i].quiz_id));
        }
    }
    assert(inv_choices(post)) by {
        assert forall|i: int| 0 <= i < post.choices.len() implies has_question(
            post,
            (#[trigger] post.choices[i]).question_id,
        ) by {
            assert(has_question(pre, pre.choices[i].question_id));
        }
    }
    assert(inv_quiz_tags(post)) by {
        assert forall|i: int| 0 <= i < post.quiz_tags.len() implies has_quiz(
            post,
            (#[trigger] post.quiz_tags[i]).quiz_id,
        ) by {
            assert(has_quiz(pre, pre.quiz_tags[i].quiz_id));
        }
    }
    assert(inv_question_tags(post)) by {
        assert forall|i: int| 0 <= i < post.question_tags.len() implies has_question(
            post,
            (#[trigger] post.question_tags[i]).question_id,
        ) && has_quiz_tag(post, post.question_tags[i].tag_id) by {
            assert(has_question(pre, pre.question_tags[i].question_id));
            assert(has_quiz_tag(pre, pre.question_tags[i].tag_id));
        }
    }
}

/// Deleting one tag and the links that carried it preserves the store
/// invariant.
#[verifier::rlimit(50)]
proof fn lemma_tag_delete_preserves_inv(
    pre: StoreView,
    post: StoreView,
    id: Seq<char>,
    deck_id: Seq<char>,
)
    requires
        inv(pre),
        post == (StoreView {
            tags: pre.tags.filter(tag_not_matching(id, deck_id)),
            card_tags: pre.card_tags.filter(link_survives_tag_delete(pre, id, deck_id)),
            ..pre
        }),
    ensures
        inv(post),
{
    broadcast use vstd::seq_lib::group_filter_ensures;

    let ft = pre.tags.filter(tag_not_matching(id, deck_id));
    let fl = pre.card_tags.filter(link_survives_tag_delete(pre, id, deck_id));
    lemma_filter_pairwise(pre.tags, tag_not_matching(id, deck_id), rel_distinct_tag());
    lemma_filter_pairwise(
        pre.card_tags,
        link_survives_tag_delete(pre, id, deck_id),
        rel_distinct_card_tag(),
    );
    assert forall|i: int, j: int| 0 <= i < j < post.tags.len() implies post.tags[i].id
        != post.tags[j].id && !(post.tags[i].deck_id == post.tags[j].deck_id && post.tags[i].name
        == post.tags[j].name) by {
        assert(rel_distinct_tag()(ft[i], ft[j]));
    }
    assert forall|i: int| 0 <= i < post.tags.len() implies has_deck(
        post,
        (#[trigger] post.tags[i]).deck_id,
    ) by {
        let k = choose|k: int| 0 <= k < pre.tags.len() && pre.tags[k] == ft[i];
        assert(has_deck(pre, pre.tags[k].deck_id));
    }
    assert forall|i: int, j: int| 0 <= i < j < post.card_tags.len() implies !(post.card_tags[i].card_id
        == post.card_tags[j].card_id && post.card_tags[i].tag_id == post.card_tags[j].tag_id) by {
        assert(rel_distinct_card_tag()(fl[i], fl[j]));
    }
    assert forall|i: int| 0 <= i < post.card_tags.len() implies has_card(
        post,
        (#[trigger] post.card_tags[i]).card_id,
    ) && has_tag(post, post.card_tags[i].tag_id) by {
        assert(link_survives_tag_delete(pre, id, deck_id)(fl[i]));
        let l = fl[i];
        lemma_filter_exists(
            pre.tags,
            tag_not_matching(id, deck_id),
            |t: TagV| t.id == l.tag_id,
        );
        assert(tag_survives_tag_delete(pre, l.tag_id, id, deck_id));
        assert(exists|x: int|
            0 <= x < pre.tags.len() && tag_not_matching(id, deck_id)(#[trigger] pre.tags[x])
                && pre.tags[x].id == l.tag_id);
        let k = choose|k: int| 0 <= k < pre.card_tags.len() && pre.card_tags[k] == fl[i];
        assert(has_card(pre, pre.card_tags[k].card_id));
    }
    assert(inv_users(post)) by {
        match pre.active_user {
            Option::Some(uid) => {
                assert(has_user(pre, uid));
            },
            Option::None => {},
        }
    }
    assert(inv_cards(post)) by {
        assert forall|i: int| 0 <= i < post.cards.len() implies has_deck(
            post,
            (#[trigger] post.cards[i]).deck_id,
        ) && post.cards[i].tags.len() == 0 by {
            assert(has_deck(pre, pre.cards[i].deck_id));
        }
    }
    assert(inv_questions(post)) by {
        assert forall|i: int| 0 <= i < post.questions.len() implies has_quiz(
            post,
            (#[trigger] post.questions[i]).quiz_id,
        ) && post.questions[i].choices.len() == 0 && post.questions[i].tags.len() == 0 by {
            assert(has_quiz(pre, pre.questions[i].quiz_id));
        }
    }
    assert(inv_choices(post)) by {
        assert forall|i: int| 0 <= i < post.choices.len() implies has_question(
            post,
            (#[trigger] post.choices[i]).question_id,
        ) by {
            assert(has_question(pre, pre.choices[i].question_id));
        }
    }
    assert(inv_quiz_tags(post)) by {
        assert forall|i: int| 0 <= i < post.quiz_tags.len() implies has_quiz(
            post,
            (#[trigger] post.quiz_tags[i]).quiz_id,
        ) by {
            assert(has_quiz(pre, pre.quiz_tags[i].quiz_id));
        }
    }
    assert(inv_question_tags(post)) by {
        assert forall|i: int| 0 <= i < post.question_tags.len() implies has_question(
            post,
            (#[trigger] post.question_tags[i]).question_id,
        ) && has_quiz_tag(post, post.question_tags[i].tag_id) by {
            assert(has_question(pre, pre.question_tags[i].question_id));
            assert(has_quiz_tag(pre, pre.question_tags[i].tag_id));
        }
    }
}

/// Dropping card/tag links (by any predicate) preserves the store
/// invariant: the remaining links still join existing rows.
proof fn lemma_link_filter_preserves_inv(
    pre: StoreView,
    post: StoreView,
    pred: spec_fn(CardTagLinkV) -> bool,
)
    requires
        inv(pre),
        post == (StoreView { card_tags: pre.card_tags.filter(pred), ..pre }),
    ensures
        inv(post),
{
    broadcast use vstd::seq_lib::group_filter_ensures;

    let fl = pre.card_tags.filter(pred);
    lemma_filter_pairwise(pre.card_tags, pred, rel_distinct_card_tag());
    assert forall|i: int, j: int| 0 <= i < j < post.card_tags.len() implies !(post.card_tags[i].card_id
        == post.card_tags[j].card_id && post.card_tags[i].tag_id == post.card_tags[j].tag_id) by {
        assert(rel_distinct_card_tag()(fl[i], fl[j]));
    }
    assert forall|i: int| 0 <= i < post.card_tags.len() implies has_card(
        post,
        (#[trigger] post.card_tags[i]).card_id,
    ) && has_tag(post, post.card_tags[i].tag_id) by {
        let k = choose|k: int| 0 <= k < pre.card_tags.len() && pre.card_tags[k] == fl[i];
        assert(has_card(pre, pre.card_tags[k].card_id));
        assert(has_tag(pre, pre.card_tags[k].tag_id));
    }
    assert(inv_users(post)) by {
        match pre.active_user {
            Option::Some(uid) => {
                assert(has_user(pre, uid));
            },
            Option::None => {},
        }
    }
    assert(inv_cards(post)) by {
        assert forall|i: int| 0 <= i < post.cards.len() implies has_deck(
            post,
            (#[trigger] post.cards[i]).deck_id,
        ) && post.cards[i].tags.len() == 0 by {
            assert(has_deck(pre, pre.cards[i].deck_id));
        }
    }
    assert(inv_tags(post)) by {
        assert forall|i: int| 0 <= i < post.tags.len() implies has_deck(
            post,
            (#[trigger] post.tags[i]).deck_id,
        ) by {
            assert(has_deck(pre, pre.tags[i].deck_id));
        }
    }
    assert(inv_questions(post)) by {
        assert forall|i: int| 0 <= i < post.questions.len() implies has_quiz(
            post,
            (#[trigger] post.questions[i]).quiz_id,
        ) && post.questions[i].choices.len() == 0 && post.questions[i].tags.len() == 0 by {
            assert(has_quiz(pre, pre.questions[i].quiz_id));
        }
    }
    assert(inv_choices(post)) by {
        assert forall|i: int| 0 <= i < post.choices.len() implies has_question(
            post,
            (#[trigger] post.choices[i]).question_id,
        ) by {
            assert(has_question(pre, pre.choices[i].question_id));
        }
    }
    assert(inv_quiz_tags(post)) by {
        assert forall|i: int| 0 <= i < post.quiz_tags.len() implies has_quiz(
            post,
            (#[trigger] post.quiz_tags[i]).quiz_id,
        ) by {
            assert(has_quiz(pre, pre.quiz_tags[i].quiz_id));
        }
    }
    assert(inv_question_tags(post)) by {
        assert forall|i: int| 0 <= i < post.question_tags.len() implies has_question(
            post,
            (#[trigger] post.question_tags[i]).question_id,
        ) && has_quiz_tag(post, post.question_tags[i].tag_id) by {
            assert(has_question(pre, pre.question_tags[i].question_id));
            assert(has_quiz_tag(pre, pre.question_tags[i].tag_id));
        }
    }
}

/// Filtering a sequence keeps every pairwise relation of the original
/// (order is preserved), and every kept element occurs in the original.
pub proof fn lemma_filter_pairwise<A>(s: Seq<A>, pred: spec_fn(A) -> bool, rel: spec_fn(A, A) -> bool)
    requires
        forall|i: int, j: int| 0 <= i < j < s.len() ==> #[trigger] rel(s[i], s[j]),
    ensures
        forall|i: int, j: int|
            0 <= i < j < s.filter(pred).len() ==> #[trigger] rel(
                s.filter(pred)[i],
                s.filter(pred)[j],
            ),
        forall|i: int|
            0 <= i < s.filter(pred).len() ==> exists|k: int|
                0 <= k < s.len() && s[k] == #[trigger] s.filter(pred)[i],
    decreases s.len(),
{
    reveal(Seq::filter);
    if s.len() > 0 {
        let d = s.drop_last();
        assert(forall|i: int, j: int| 0 <= i < j < d.len() ==> #[trigger] rel(d[i], d[j]));
        lemma_filter_pairwise(d, pred, rel);
        let fd = d.filter(pred);
        let f = s.filter(pred);
        if pred(s.last()) {
            assert(f == fd.push(s.last()));
            assert forall|i: int| 0 <= i < f.len() implies exists|k: int|
                0 <= k < s.len() && s[k] == #[trigger] f[i] by {
                if i < fd.len() {
                    let k = choose|k: int| 0 <= k < d.len() && d[k] == fd[i];
                    assert(s[k] == f[i]);
                } else {
                    assert(s[s.len() - 1] == f[i]);
                }
            }
            assert forall|i: int, j: int| 0 <= i < j < f.len() implies #[trigger] rel(
                f[i],
                f[j],
            ) by {
                if j < fd.len() {
                } else {
                    let k = choose|k: int| 0 <= k < d.len() && d[k] == fd[i];
                    assert(rel(s[k], s[s.len() - 1]));
                }
            }
        } else {
            assert(f == fd);
            assert forall|i: int| 0 <= i < f.len() implies exists|k: int|
                0 <= k < s.len() && s[k] == #[trigger] f[i] by {
                let k = choose|k: int| 0 <= k < d.len() && d[k] == fd[i];
                assert(s[k] == f[i]);
            }
        }
    }
}

/// An element with some property stands in a filtered sequence exactly
/// when an element with that property and the filter's predicate stands
/// in the original.
pub proof fn lemma_filter_exists<A>(s: Seq<A>, pred: spec_fn(A) -> bool, q: spec_fn(A) -> bool)
    ensures
        (exists|i: int| 0 <= i < s.filter(pred).len() && q(#[trigger] s.filter(pred)[i])) <==> (
        exists|i: int| 0 <= i < s.len() && pred(#[trigger] s[i]) && q(s[i])),
    decreases s.len(),
{
    reveal(Seq::filter);
    if s.len() > 0 {
        let d = s.drop_last();
        lemma_filter_exists(d, pred, q);
        let fd = d.filter(pred);
        let f = s.filter(pred);
        if (exists|i: int| 0 <= i < f.len() && q(#[trigger] f[i])) {
            let i = choose|i: int| 0 <= i < f.len() && q(#[trigger] f[i]);
            if pred(s.last()) {
                assert(f == fd.push(s.last()));
                if i < fd.len() {
                    assert(q(fd[i]));
                    let k = choose|k: int| 0 <= k < d.len() && pred(#[trigger] d[k]) && q(d[k]);
                    assert(pred(s[k]) && q(s[k]));
                } else {
                    assert(pred(s[s.len() - 1]) && q(s[s.len() - 1]));
                }
            } else {
                assert(q(fd[i]));
                let k = choose|k: int| 0 <= k < d.len() && pred(#[trigger] d[k]) && q(d[k]);
                assert(pred(s[k]) && q(s[k]));
            }
        }
        if (exists|i: int| 0 <= i < s.len() && pred(#[trigger] s[i]) && q(s[i])) {
            let i = choose|i: int| 0 <= i < s.len() && pred(#[trigger] s[i]) && q(s[i]);
            if i < s.len() - 1 {
                assert(pred(d[i]) && q(d[i]));
                let k = choose|k: int| 0 <= k < fd.len() && q(#[trigger] fd[k]);
                if pred(s.last()) {
                    assert(f == fd.push(s.last()));
                    assert(q(f[k]));
                } else {
                    assert(q(f[k]));
                }
            } else {
                assert(pred(s.last()));
                assert(f == fd.push(s.last()));
                assert(q(f[f.len() - 1]));
            }
        }
    }
}

/// One step of a filtering loop: pushing an element extends the filtered
/// sequence exactly when the predicate holds of it.
pub proof fn lemma_filter_push<A>(s: Seq<A>, x: A, pred: spec_fn(A) -> bool)
    ensures
        s.push(x).filter(pred) == if pred(x) {
            s.filter(pred).push(x)
        } else {
            s.filter(pred)
        },
{
    reveal(Seq::filter);
    assert(s.push(x).drop_last() =~= s);
    assert(s.push(x).last() == x);
}

/// An operation that only touches sessions, attempts, results, users,
/// the active user or the queue leaves every clause about the relational
/// tables intact.
proof fn lemma_untouched_tables_inv(pre: StoreView, post: StoreView)
    requires
        inv(pre),
        post.decks == pre.decks,
        post.cards == pre.cards,
        post.tags == pre.tags,
        post.card_tags == pre.card_tags,
        post.quizzes == pre.quizzes,
        post.questions == pre.questions,
        post.choices == pre.choices,
        post.quiz_tags == pre.quiz_tags,
        post.question_tags == pre.question_tags,
    ensures
        inv_decks(post),
        inv_cards(post),
        inv_tags(post),
        inv_card_tags(post),
        inv_quizzes(post),
        inv_questions(post),
        inv_choices(post),
        inv_quiz_tags(post),
        inv_question_tags(post),
{
    assert(inv_cards(post)) by {
        assert forall|i: int| 0 <= i < post.cards.len() implies has_deck(
            post,
            (#[trigger] post.cards[i]).deck_id,
        ) && post.cards[i].tags.len() == 0 by {
            assert(has_deck(pre, pre.cards[i].deck_id));
        }
    }
    assert(inv_tags(post)) by {
        assert forall|i: int| 0 <= i < post.tags.len() implies has_deck(
            post,
            (#[trigger] post.tags[i]).deck_id,
        ) by {
            assert(has_deck(pre, pre.tags[i].deck_id));
        }
    }
    assert(inv_card_tags(post)) by {
        assert forall|i: int| 0 <= i < post.card_tags.len() implies has_card(
            post,
            (#[trigger] post.card_tags[i]).card_id,
        ) && has_tag(post, post.card_tags[i].tag_id) by {
            assert(has_card(pre, pre.card_tags[i].card_id));
            assert(has_tag(pre, pre.card_tags[i].tag_id));
        }
    }
    assert(inv_questions(post)) by {
        assert forall|i: int| 0 <= i < post.questions.len() implies has_quiz(
            post,
            (#[trigger] post.questions[i]).quiz_id,
        ) && post.questions[i].choices.len() == 0 && post.questions[i].tags.len() == 0 by {
            assert(has_quiz(pre, pre.questions[i].quiz_id));
        }
    }
    assert(inv_choices(post)) by {
        assert forall|i: int| 0 <= i < post.choices.len() implies has_question(
            post,
            (#[trigger] post.choices[i]).question_id,
        ) by {
            assert(has_question(pre, pre.choices[i].question_id));
        }
    }
    assert(inv_quiz_tags(post)) by {
        assert forall|i: int| 0 <= i < post.quiz_tags.len() implies has_quiz(
            post,
            (#[trigger] post.quiz_tags[i]).quiz_id,
        ) by {
            assert(has_quiz(pre, pre.quiz_tags[i].quiz_id));
        }
    }
    assert(inv_question_tags(post)) by {
        assert forall|i: int| 0 <= i < post.question_tags.len() implies has_question(
            post,
            (#[trigger] post.question_tags[i]).question_id,
        ) && has_quiz_tag(post, post.question_tags[i].tag_id) by {
            assert(has_question(pre, pre.question_tags[i].question_id));
            assert(has_quiz_tag(pre, pre.question_tags[i].tag_id));
        }
    }
}

/// An operation that only rewrites decks — keeping every deck
/// identifier reachable — leaves the clauses of the other tables intact.
proof fn lemma_deck_rewrite_tables_inv(pre: StoreView, post: StoreView)
    requires
        inv(pre),
        post.cards == pre.cards,
        post.tags == pre.tags,
        post.card_tags == pre.card_tags,
        post.quizzes == pre.quizzes,
        post.questions == pre.questions,
        post.choices == pre.choices,
        post.quiz_tags == pre.quiz_tags,
        post.question_tags == pre.question_tags,
        post.users == pre.users,
        post.active_user == pre.active_user,
        forall|id: Seq<char>| #[trigger] has_deck(pre, id) ==> has_deck(post, id),
    ensures
        inv_cards(post),
        inv_tags(post),
        inv_card_tags(post),
        inv_quizzes(post),
        inv_questions(post),
        inv_choices(post),
        inv_quiz_tags(post),
        inv_question_tags(post),
        inv_users(post),
{
    assert(inv_cards(post)) by {
        assert forall|i: int| 0 <= i < post.cards.len() implies has_deck(
            post,
            (#[trigger] post.cards[i]).deck_id,
        ) && post.cards[i].tags.len() == 0 by {
            assert(has_deck(pre, pre.cards[i].deck_id));
        }
    }
    assert(inv_tags(post)) by {
        assert forall|i: int| 0 <= i < post.tags.len() implies has_deck(
            post,
            (#[trigger] post.tags[i]).deck_id,
        ) by {
            assert(has_deck(pre, pre.tags[i].deck_id));
        }
    }
    assert(inv_card_tags(post)) by {
        assert forall|i: int| 0 <= i < post.card_tags.len() implies has_card(
            post,
            (#[trigger] post.card_tags[i]).card_id,
        ) && has_tag(post, post.card_tags[i].tag_id) by {
            assert(has_card(pre, pre.card_tags[i].card_id));
            assert(has_tag(pre, pre.card_tags[i].tag_id));
        }
    }
    assert(inv_questions(post)) by {
        assert forall|i: int| 0 <= i < post.questions.len() implies has_quiz(
            post,
            (#[trigger] post.questions[i]).quiz_id,
        ) && post.questions[i].choices.len() == 0 && post.questions[i].tags.len() == 0 by {
            assert(has_quiz(pre, pre.questions[i].quiz_id));
        }
    }
    assert(inv_choices(post)) by {
        assert forall|i: int| 0 <= i < post.choices.len() implies has_question(
            post,
            (#[trigger] post.choices[i]).question_id,
        ) by {
            assert(has_question(pre, pre.choices[i].question_id));
        }
    }
    assert(inv_quiz_tags(post)) by {
        assert forall|i: int| 0 <= i < post.quiz_tags.len() implies has_quiz(
            post,
            (#[trigger] post.quiz_tags[i]).quiz_id,
        ) by {
            assert(has_quiz(pre, pre.quiz_tags[i].quiz_id));
        }
    }
    assert(inv_question_tags(post)) by {
        assert forall|i: int| 0 <= i < post.question_tags.len() implies has_question(
            post,
            (#[trigger] post.question_tags[i]).question_id,
        ) && has_quiz_tag(post, post.question_tags[i].tag_id) by {
            assert(has_question(pre, pre.question_tags[i].question_id));
            assert(has_quiz_tag(pre, pre.question_tags[i].tag_id));
        }
    }
    assert(inv_users(post)) by {
        match pre.active_user {
            Option::Some(uid) => {
                assert(has_user(pre, uid));
                let k = choose|k: int| 0 <= k < pre.users.len() && pre.users[k].id == uid;
                assert(post.users[k].id == uid);
            },
            Option::None => {},
        }
    }
}

/// Demotion rewrites at most one deck in place: every deck keeps its
/// identifier.
pub proof fn lemma_demote_decks_preserves_ids(decks: Seq<DeckV>, dl: Seq<char>, now: int)
    ensures
        demote_decks(decks, dl, now).len() == decks.len(),
        forall|i: int|
            0 <= i < decks.len() ==> (#[trigger] demote_decks(decks, dl, now)[i]).id == decks[i].id,
{
}

/// Growing a table (or leaving it alone) preserves every membership fact
/// of the untouched prefix; invoked after pushes so that referential
/// clauses carry over.
proof fn lemma_push_preserves_membership(pre: StoreView, post: StoreView)
    requires
        post.decks.len() >= pre.decks.len(),
        forall|i: int| 0 <= i < pre.decks.len() ==> post.decks[i] == pre.decks[i],
        post.cards.len() >= pre.cards.len(),
        forall|i: int| 0 <= i < pre.cards.len() ==> post.cards[i] == pre.cards[i],
        post.tags.len() >= pre.tags.len(),
        forall|i: int| 0 <= i < pre.tags.len() ==> post.tags[i] == pre.tags[i],
        post.quizzes.len() >= pre.quizzes.len(),
        forall|i: int| 0 <= i < pre.quizzes.len() ==> post.quizzes[i] == pre.quizzes[i],
        post.questions.len() >= pre.questions.len(),
        forall|i: int| 0 <= i < pre.questions.len() ==> post.questions[i] == pre.questions[i],
        post.quiz_tags.len() >= pre.quiz_tags.len(),
        forall|i: int| 0 <= i < pre.quiz_tags.len() ==> post.quiz_tags[i] == pre.quiz_tags[i],
        post.users.len() >= pre.users.len(),
        forall|i: int| 0 <= i < pre.users.len() ==> post.users[i] == pre.users[i],
    ensures
        forall|id: Seq<char>| has_deck(pre, id) ==> #[trigger] has_deck(post, id),
        forall|id: Seq<char>| has_card(pre, id) ==> #[trigger] has_card(post, id),
        forall|id: Seq<char>| has_tag(pre, id) ==> #[trigger] has_tag(post, id),
        forall|id: Seq<char>| has_quiz(pre, id) ==> #[trigger] has_quiz(post, id),
        forall|id: Seq<char>| has_question(pre, id) ==> #[trigger] has_question(post, id),
        forall|id: Seq<char>| has_quiz_tag(pre, id) ==> #[trigger] has_quiz_tag(post, id),
        forall|id: Seq<char>| has_user(pre, id) ==> #[trigger] has_user(post, id),
{
    assert forall|id: Seq<char>| has_deck(pre, id) implies #[trigger] has_deck(post, id) by {
        let i = choose|i: int| 0 <= i < pre.decks.len() && pre.decks[i].id == id;
        assert(post.decks[i].id == id);
    }
    assert forall|id: Seq<char>| has_card(pre, id) implies #[trigger] has_card(post, id) by {
        let i = choose|i: int| 0 <= i < pre.cards.len() && pre.cards[i].id == id;
        assert(post.cards[i].id == id);
    }
    assert forall|id: Seq<char>| has_tag(pre, id) implies #[trigger] has_tag(post, id) by {
        let i = choose|i: int| 0 <= i < pre.tags.len() && pre.tags[i].id == id;
        assert(post.tags[i].id == id);
    }
    assert forall|id: Seq<char>| has_quiz(pre, id) implies #[trigger] has_quiz(post, id) by {
        let i = choose|i: int| 0 <= i < pre.quizzes.len() && pre.quizzes[i].id == id;
        assert(post.quizzes[i].id == id);
    }
    assert forall|id: Seq<char>| has_question(pre, id) implies #[trigger] has_question(
        post,
        id,
    ) by {
        let i = choose|i: int| 0 <= i < pre.questions.len() && pre.questions[i].id == id;
        assert(post.questions[i].id == id);
    }
    assert forall|id: Seq<char>| has_quiz_tag(pre, id) implies #[trigger] has_quiz_tag(
        post,
        id,
    ) by {
        let i = choose|i: int| 0 <= i < pre.quiz_tags.len() && pre.quiz_tags[i].id == id;
        assert(post.quiz_tags[i].id == id);
    }
    assert forall|id: Seq<char>| has_user(pre, id) implies #[trigger] has_user(post, id) by {
        let i = choose|i: int| 0 <= i < pre.users.len() && pre.users[i].id == id;
        assert(post.users[i].id == id);
    }
}

/// Replacing one deck by another with the same identifier preserves deck
/// membership facts.
proof fn lemma_update_deck_same_id_preserves_membership(pre: StoreView, post: StoreView, at: int)
    requires
        0 <= at < pre.decks.len(),
        post.decks.len() == pre.decks.len(),
        forall|i: int| 0 <= i < pre.decks.len() && i != at ==> post.decks[i] == pre.decks[i],
        post.decks[at].id == pre.decks[at].id,
    ensures
        forall|id: Seq<char>| has_deck(pre, id) ==> #[trigger] has_deck(post, id),
        forall|id: Seq<char>| has_deck(post, id) ==> #[trigger] has_deck(pre, id),
{
    assert forall|id: Seq<char>| has_deck(pre, id) implies #[trigger] has_deck(post, id) by {
        let i = choose|i: int| 0 <= i < pre.decks.len() && pre.decks[i].id == id;
        assert(post.decks[i].id == id);
    }
    assert forall|id: Seq<char>| has_deck(post, id) implies #[trigger] has_deck(pre, id) by {
        let i = choose|i: int| 0 <= i < post.decks.len() && post.decks[i].id == id;
        assert(pre.decks[i].id == id);
    }
}

} // verus!
