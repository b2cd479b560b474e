//! Data model of the flashcard library: decks, cards, tags, quizzes,
//! questions, choices, quiz attempts, study sessions and local users,
//! together with the sync-status state machine that tracks each deck's
//! relationship to a remote server.
//!
//! Every entity has a ghost view (`...V`) over which the contracts of the
//! store operations are stated: strings appear as `Seq<char>`, timestamps
//! as integer seconds.
use vstd::prelude::*;

verus! {

// ============================================
// Errors
// ============================================
/// Failure taxonomy of the library.
#[derive(Clone, Copy, Debug, PartialEq, Eq, Structural)]
pub enum AppError {
    /// A lookup by identifier matched no row.
    NotFound,
    /// Malformed or out-of-range input.
    Validation,
    /// A store operation failed (e.g. a uniqueness constraint was violated).
    Store,
    /// A remote request failed to complete or returned a non-success status.
    Network,
    /// Invalid password on login.
    Auth,
}

// ============================================
// Sync status state machine
// ============================================
/// Relationship of a deck to the remote server's copy.
#[derive(Clone, Copy, Debug, PartialEq, Eq, Structural)]
pub enum SyncStatus {
    /// Created while offline; never touched a server.
    LocalOnly,
    /// Local state mirrors server state as of the last sync.
    Synced,
    /// Was `Synced`, then mutated locally before the mutation could be pushed.
    PendingSync,
    /// Reserved for future divergence detection; no transition produces it.
    Conflict,
}

/// The demotion rule: any local mutation to a deck currently `Synced`
/// demotes it to `PendingSync`; every other status is left unchanged.
pub open spec fn demoted(s: SyncStatus) -> SyncStatus {
    if s == SyncStatus::Synced {
        SyncStatus::PendingSync
    } else {
        s
    }
}

/// Demotion is idempotent: repeating a mutation leaves a deck that is
/// already `PendingSync` (or `LocalOnly`) where it is.
pub proof fn lemma_demotion_idempotent(s: SyncStatus)
    ensures
        demoted(demoted(s)) == demoted(s),
{
}

impl SyncStatus {
    /// Text form under which a status is persisted.
    pub fn as_str(&self) -> (r: &'static str)
        ensures
            *self == SyncStatus::LocalOnly ==> r@ == "local_only"@,
            *self == SyncStatus::Synced ==> r@ == "synced"@,
            *self == SyncStatus::PendingSync ==> r@ == "pending_sync"@,
            *self == SyncStatus::Conflict ==> r@ == "conflict"@,
    {
        match self {
            SyncStatus::LocalOnly => "local_only",
            SyncStatus::Synced => "synced",
            SyncStatus::PendingSync => "pending_sync",
            SyncStatus::Conflict => "conflict",
        }
    }

    /// Inverse of `as_str`; any unrecognised text is read as `LocalOnly`.
    pub fn from_str(s: &str) -> (r: Self)
        ensures
            s@ == "synced"@ ==> r == SyncStatus::Synced,
            s@ == "pending_sync"@ ==> r == SyncStatus::PendingSync,
            s@ == "conflict"@ ==> r == SyncStatus::Conflict,
            s@ != "synced"@ && s@ != "pending_sync"@ && s@ != "conflict"@ ==> r
                == SyncStatus::LocalOnly,
    {
        proof {
            reveal_strlit("synced");
            reveal_strlit("pending_sync");
            reveal_strlit("conflict");
            assert("synced"@.len() == 6 && "pending_sync"@.len() == 12 && "conflict"@.len() == 8);
        }
        if crate::text::str_eq(s, "synced") {
            SyncStatus::Synced
        } else if crate::text::str_eq(s, "pending_sync") {
            SyncStatus::PendingSync
        } else if crate::text::str_eq(s, "conflict") {
            SyncStatus::Conflict
        } else {
            SyncStatus::LocalOnly
        }
    }
}

// ============================================
// Question type
// ============================================
/// Discriminant deciding which grading rule a question uses.
#[derive(Clone, Copy, Debug, PartialEq, Eq, Structural)]
pub enum QuestionType {
    MultipleChoice,
    FillInBlank,
}

impl QuestionType {
    /// Any text other than `fill_in_blank` is read as `MultipleChoice`.
    pub fn from_str(s: &str) -> (r: Self)
        ensures
            s@ == "fill_in_blank"@ ==> r == QuestionType::FillInBlank,
            s@ != "fill_in_blank"@ ==> r == QuestionType::MultipleChoice,
    {
        if crate::text::str_eq(s, "fill_in_blank") {
            QuestionType::FillInBlank
        } else {
            QuestionType::MultipleChoice
        }
    }
}

// ============================================
// View helpers
// ============================================
/// Ghost view of an optional string.
pub open spec fn opt_str(o: Option<String>) -> Option<Seq<char>> {
    match o {
        Option::Some(s) => Option::Some(s@),
        Option::None => Option::None,
    }
}

/// Clones an optional string, preserving its view.
pub fn clone_opt_string(o: &Option<String>) -> (r: Option<String>)
    ensures
        opt_str(r) == opt_str(*o),
{
    match o {
        Option::Some(s) => Option::Some(s.clone()),
        Option::None => Option::None,
    }
}

// ============================================
// Deck side
// ============================================
/// A deck of flashcards, the unit of sync.
pub struct Deck {
    pub id: String,
    pub name: String,
    pub description: Option<String>,
    pub shuffle_cards: bool,
    pub created_at: i64,
    pub updated_at: i64,
    pub remote_id: Option<i64>,
    pub sync_status: SyncStatus,
    pub last_synced_at: Option<i64>,
    pub remote_updated_at: Option<i64>,
    /// Derived: how many cards the deck holds; only set by listing queries.
    pub card_count: Option<u64>,
}

#[verifier::ext_equal]
pub ghost struct DeckV {
    pub id: Seq<char>,
    pub name: Seq<char>,
    pub description: Option<Seq<char>>,
    pub shuffle_cards: bool,
    pub created_at: int,
    pub updated_at: int,
    pub remote_id: Option<i64>,
    pub sync_status: SyncStatus,
    pub last_synced_at: Option<i64>,
    pub remote_updated_at: Option<i64>,
    pub card_count: Option<u64>,
}

impl View for Deck {
    type V = DeckV;

    open spec fn view(&self) -> DeckV {
        DeckV {
            id: self.id@,
            name: self.name@,
            description: opt_str(self.description),
            shuffle_cards: self.shuffle_cards,
            created_at: self.created_at as int,
            updated_at: self.updated_at as int,
            remote_id: self.remote_id,
            sync_status: self.sync_status,
            last_synced_at: self.last_synced_at,
            remote_updated_at: self.remote_updated_at,
            card_count: self.card_count,
        }
    }
}

impl Clone for Deck {
    fn clone(&self) -> (r: Self)
        ensures
            r@ == self@,
    {
        Deck {
            id: self.id.clone(),
            name: self.name.clone(),
            description: clone_opt_string(&self.description),
            shuffle_cards: self.shuffle_cards,
            created_at: self.created_at,
            updated_at: self.updated_at,
            remote_id: self.remote_id,
            sync_status: self.sync_status,
            last_synced_at: self.last_synced_at,
            remote_updated_at: self.remote_updated_at,
            card_count: self.card_count,
        }
    }
}

/// A tag as it appears attached to a card: identifier and name only.
pub struct CardTag {
    pub id: String,
    pub name: String,
}

#[verifier::ext_equal]
pub ghost struct CardTagV {
    pub id: Seq<char>,
    pub name: Seq<char>,
}

impl View for CardTag {
    type V = CardTagV;

    open spec fn view(&self) -> CardTagV {
        CardTagV { id: self.id@, name: self.name@ }
    }
}

impl Clone for CardTag {
    fn clone(&self) -> (r: Self)
        ensures
            r@ == self@,
    {
        CardTag { id: self.id.clone(), name: self.name.clone() }
    }
}

/// A flashcard. Cards carry no sync status of their own; consistency is
/// inherited from the owning deck's demotion rule.
pub struct Card {
    pub id: String,
    pub deck_id: String,
    pub front: String,
    pub front_type: String,
    pub front_language: Option<String>,
    pub back: String,
    pub back_type: String,
    pub back_language: Option<String>,
    pub notes: Option<String>,
    pub created_at: i64,
    pub updated_at: i64,
    pub remote_id: Option<i64>,
    /// Derived: the card's tags; only populated by queries.
    pub tags: Vec<CardTag>,
}

#[verifier::ext_equal]
pub ghost struct CardV {
    pub id: Seq<char>,
    pub deck_id: Seq<char>,
    pub front: Seq<char>,
    pub front_type: Seq<char>,
    pub front_language: Option<Seq<char>>,
    pub back: Seq<char>,
    pub back_type: Seq<char>,
    pub back_language: Option<Seq<char>>,
    pub notes: Option<Seq<char>>,
    pub created_at: int,
    pub updated_at: int,
    pub remote_id: Option<i64>,
    pub tags: Seq<CardTagV>,
}

impl View for Card {
    type V = CardV;

    open spec fn view(&self) -> CardV {
        CardV {
            id: self.id@,
            deck_id: self.deck_id@,
            front: self.front@,
            front_type: self.front_type@,
            front_language: opt_str(self.front_language),
            back: self.back@,
            back_type: self.back_type@,
            back_language: opt_str(self.back_language),
            notes: opt_str(self.notes),
            created_at: self.created_at as int,
            updated_at: self.updated_at as int,
            remote_id: self.remote_id,
            tags: self.tags@.map_values(|t: CardTag| t@),
        }
    }
}

/// Clones a card's tag list, preserving the view of every element.
pub fn clone_card_tags(v: &Vec<CardTag>) -> (r: Vec<CardTag>)
    ensures
        r@.map_values(|t: CardTag| t@) == v@.map_values(|t: CardTag| t@),
{
    let n = v.len();
    let mut r: Vec<CardTag> = Vec::new();
    let mut i: usize = 0;
    while i < n
        invariant
            n == v.len(),
            i <= n,
            r@.len() == i,
            forall|j: int| 0 <= j < i ==> r@[j]@ == v@[j]@,
        decreases n - i,
    {
        r.push(v[i].clone());
        i += 1;
    }
    proof {
        assert(r@.map_values(|t: CardTag| t@) =~= v@.map_values(|t: CardTag| t@));
    }
    r
}

impl Clone for Card {
    fn clone(&self) -> (r: Self)
        ensures
            r@ == self@,
    {
        let r = Card {
            id: self.id.clone(),
            deck_id: self.deck_id.clone(),
            front: self.front.clone(),
            front_type: self.front_type.clone(),
            front_language: clone_opt_string(&self.front_language),
            back: self.back.clone(),
            back_type: self.back_type.clone(),
            back_language: clone_opt_string(&self.back_language),
            notes: clone_opt_string(&self.notes),
            created_at: self.created_at,
            updated_at: self.updated_at,
            remote_id: self.remote_id,
            tags: clone_card_tags(&self.tags),
        };
        proof {
            assert(r@ =~= self@);
        }
        r
    }
}

/// A tag scoped to one deck; name uniqueness is per deck, not global.
pub struct Tag {
    pub id: String,
    pub deck_id: String,
    pub name: String,
    pub remote_id: Option<i64>,
}

#[verifier::ext_equal]
pub ghost struct TagV {
    pub id: Seq<char>,
    pub deck_id: Seq<char>,
    pub name: Seq<char>,
    pub remote_id: Option<i64>,
}

impl View for Tag {
    type V = TagV;

    open spec fn view(&self) -> TagV {
        TagV {
            id: self.id@,
            deck_id: self.deck_id@,
            name: self.name@,
            remote_id: self.remote_id,
        }
    }
}

impl Clone for Tag {
    fn clone(&self) -> (r: Self)
        ensures
            r@ == self@,
    {
        Tag {
            id: self.id.clone(),
            deck_id: self.deck_id.clone(),
            name: self.name.clone(),
            remote_id: self.remote_id,
        }
    }
}

/// The card/tag many-to-many junction.
pub struct CardTagLink {
    pub card_id: String,
    pub tag_id: String,
}

#[verifier::ext_equal]
pub ghost struct CardTagLinkV {
    pub card_id: Seq<char>,
    pub tag_id: Seq<char>,
}

impl View for CardTagLink {
    type V = CardTagLinkV;

    open spec fn view(&self) -> CardTagLinkV {
        CardTagLinkV { card_id: self.card_id@, tag_id: self.tag_id@ }
    }
}

// ============================================
// Quiz side
// ============================================
/// An assessment, structurally parallel to a deck.
pub struct Quiz {
    pub id: String,
    pub name: String,
    pub description: Option<String>,
    pub shuffle_questions: bool,
    pub created_at: i64,
    pub updated_at: i64,
    /// Derived: the quiz's questions in position order; only populated by queries.
    pub questions: Vec<Question>,
    /// Derived: how many questions the quiz holds.
    pub question_count: Option<u64>,
}

#[verifier::ext_equal]
pub ghost struct QuizV {
    pub id: Seq<char>,
    pub name: Seq<char>,
    pub description: Option<Seq<char>>,
    pub shuffle_questions: bool,
    pub created_at: int,
    pub updated_at: int,
    pub questions: Seq<QuestionV>,
    pub question_count: Option<u64>,
}

impl View for Quiz {
    type V = QuizV;

    open spec fn view(&self) -> QuizV {
        QuizV {
            id: self.id@,
            name: self.name@,
            description: opt_str(self.description),
            shuffle_questions: self.shuffle_questions,
            created_at: self.created_at as int,
            updated_at: self.updated_at as int,
            questions: self.questions@.map_values(|q: Question| q@),
            question_count: self.question_count,
        }
    }
}

/// A tag scoped to one quiz.
pub struct QuizTag {
    pub id: String,
    pub quiz_id: String,
    pub name: String,
}

#[verifier::ext_equal]
pub ghost struct QuizTagV {
    pub id: Seq<char>,
    pub quiz_id: Seq<char>,
    pub name: Seq<char>,
}

impl View for QuizTag {
    type V = QuizTagV;

    open spec fn view(&self) -> QuizTagV {
        QuizTagV { id: self.id@, quiz_id: self.quiz_id@, name: self.name@ }
    }
}

impl Clone for QuizTag {
    fn clone(&self) -> (r: Self)
        ensures
            r@ == self@,
    {
        QuizTag { id: self.id.clone(), quiz_id: self.quiz_id.clone(), name: self.name.clone() }
    }
}

/// A tag as it appears attached to a question.
pub struct QuestionTag {
    pub id: String,
    pub name: String,
}

#[verifier::ext_equal]
pub ghost struct QuestionTagV {
    pub id: Seq<char>,
    pub name: Seq<char>,
}

impl View for QuestionTag {
    type V = QuestionTagV;

    open spec fn view(&self) -> QuestionTagV {
        QuestionTagV { id: self.id@, name: self.name@ }
    }
}

impl Clone for QuestionTag {
    fn clone(&self) -> (r: Self)
        ensures
            r@ == self@,
    {
        QuestionTag { id: self.id.clone(), name: self.name.clone() }
    }
}

/// The question/tag many-to-many junction.
pub struct QuestionTagLink {
    pub question_id: String,
    pub tag_id: String,
}

#[verifier::ext_equal]
pub ghost struct QuestionTagLinkV {
    pub question_id: Seq<char>,
    pub tag_id: Seq<char>,
}

impl View for QuestionTagLink {
    type V = QuestionTagLinkV;

    open spec fn view(&self) -> QuestionTagLinkV {
        QuestionTagLinkV { question_id: self.question_id@, tag_id: self.tag_id@ }
    }
}

/// A question. `question_type` decides whether `correct_answer` (fill-in
/// blank) or the `Choice` children (multiple choice) govern grading.
pub struct Question {
    pub id: String,
    pub quiz_id: String,
    pub question_type: QuestionType,
    pub content: String,
    pub content_type: String,
    pub content_language: Option<String>,
    pub correct_answer: Option<String>,
    pub multiple_answers: bool,
    pub explanation: Option<String>,
    pub position: i32,
    pub created_at: i64,
    pub updated_at: i64,
    /// Derived: the question's choices; only populated by queries.
    pub choices: Vec<Choice>,
    /// Derived: the question's tags; only populated by queries.
    pub tags: Vec<QuestionTag>,
}

#[verifier::ext_equal]
pub ghost struct QuestionV {
    pub id: Seq<char>,
    pub quiz_id: Seq<char>,
    pub question_type: QuestionType,
    pub content: Seq<char>,
    pub content_type: Seq<char>,
    pub content_language: Option<Seq<char>>,
    pub correct_answer: Option<Seq<char>>,
    pub multiple_answers: bool,
    pub explanation: Option<Seq<char>>,
    pub position: i32,
    pub created_at: int,
    pub updated_at: int,
    pub choices: Seq<ChoiceV>,
    pub tags: Seq<QuestionTagV>,
}

impl View for Question {
    type V = QuestionV;

    open spec fn view(&self) -> QuestionV {
        QuestionV {
            id: self.id@,
            quiz_id: self.quiz_id@,
            question_type: self.question_type,
            content: self.content@,
            content_type: self.content_type@,
            content_language: opt_str(self.content_language),
            correct_answer: opt_str(self.correct_answer),
            multiple_answers: self.multiple_answers,
            explanation: opt_str(self.explanation),
            position: self.position,
            created_at: self.created_at as int,
            updated_at: self.updated_at as int,
            choices: self.choices@.map_values(|c: Choice| c@),
            tags: self.tags@.map_values(|t: QuestionTag| t@),
        }
    }
}

/// One selectable answer of a multiple-choice question.
pub struct Choice {
    pub id: String,
    pub question_id: String,
    pub text: String,
    pub is_correct: bool,
    pub position: i32,
}

#[verifier::ext_equal]
pub ghost struct ChoiceV {
    pub id: Seq<char>,
    pub question_id: Seq<char>,
    pub text: Seq<char>,
    pub is_correct: bool,
    pub position: i32,
}

impl View for Choice {
    type V = ChoiceV;

    open spec fn view(&self) -> ChoiceV {
        ChoiceV {
            id: self.id@,
            question_id: self.question_id@,
            text: self.text@,
            is_correct: self.is_correct,
            position: self.position,
        }
    }
}

impl Clone for Choice {
    fn clone(&self) -> (r: Self)
        ensures
            r@ == self@,
    {
        Choice {
            id: self.id.clone(),
            question_id: self.question_id.clone(),
            text: self.text.clone(),
            is_correct: self.is_correct,
            position: self.position,
        }
    }
}

/// Clones a question's choice list, preserving the view of every element.
pub fn clone_choices(v: &Vec<Choice>) -> (r: Vec<Choice>)
    ensures
        r@.map_values(|c: Choice| c@) == v@.map_values(|c: Choice| c@),
{
    let n = v.len();
    let mut r: Vec<Choice> = Vec::new();
    let mut i: usize = 0;
    while i < n
        invariant
            n == v.len(),
            i <= n,
            r@.len() == i,
            forall|j: int| 0 <= j < i ==> r@[j]@ == v@[j]@,
        decreases n - i,
    {
        r.push(v[i].clone());
        i += 1;
    }
    proof {
        assert(r@.map_values(|c: Choice| c@) =~= v@.map_values(|c: Choice| c@));
    }
    r
}

/// Clones a question's tag list, preserving the view of every element.
pub fn clone_question_tags(v: &Vec<QuestionTag>) -> (r: Vec<QuestionTag>)
    ensures
        r@.map_values(|t: QuestionTag| t@) == v@.map_values(|t: QuestionTag| t@),
{
    let n = v.len();
    let mut r: Vec<QuestionTag> = Vec::new();
    let mut i: usize = 0;
    while i < n
        invariant
            n == v.len(),
            i <= n,
            r@.len() == i,
            forall|j: int| 0 <= j < i ==> r@[j]@ == v@[j]@,
        decreases n - i,
    {
        r.push(v[i].clone());
        i += 1;
    }
    proof {
        assert(r@.map_values(|t: QuestionTag| t@) =~= v@.map_values(|t: QuestionTag| t@));
    }
    r
}

impl Clone for Question {
    fn clone(&self) -> (r: Self)
        ensures
            r@ == self@,
    {
        let r = Question {
            id: self.id.clone(),
            quiz_id: self.quiz_id.clone(),
            question_type: self.question_type,
            content: self.content.clone(),
            content_type: self.content_type.clone(),
            content_language: clone_opt_string(&self.content_language),
            correct_answer: clone_opt_string(&self.correct_answer),
            multiple_answers: self.multiple_answers,
            explanation: clone_opt_string(&self.explanation),
            position: self.position,
            created_at: self.created_at,
            updated_at: self.updated_at,
            choices: clone_choices(&self.choices),
            tags: clone_question_tags(&self.tags),
        };
        proof {
            assert(r@ =~= self@);
        }
        r
    }
}

/// Clones a quiz's question list, preserving the view of every element.
pub fn clone_questions(v: &Vec<Question>) -> (r: Vec<Question>)
    ensures
        r@.map_values(|q: Question| q@) == v@.map_values(|q: Question| q@),
{
    let n = v.len();
    let mut r: Vec<Question> = Vec::new();
    let mut i: usize = 0;
    while i < n
        invariant
            n == v.len(),
            i <= n,
            r@.len() == i,
            forall|j: int| 0 <= j < i ==> r@[j]@ == v@[j]@,
        decreases n - i,
    {
        r.push(v[i].clone());
        i += 1;
    }
    proof {
        assert(r@.map_values(|q: Question| q@) =~= v@.map_values(|q: Question| q@));
    }
    r
}

impl Clone for Quiz {
    fn clone(&self) -> (r: Self)
        ensures
            r@ == self@,
    {
        let r = Quiz {
            id: self.id.clone(),
            name: self.name.clone(),
            description: clone_opt_string(&self.description),
            shuffle_questions: self.shuffle_questions,
            created_at: self.created_at,
            updated_at: self.updated_at,
            questions: clone_questions(&self.questions),
            question_count: self.question_count,
        };
        proof {
            assert(r@ =~= self@);
        }
        r
    }
}

// ============================================
// Attempts and sessions
// ============================================
/// One run through a quiz.
pub struct QuizAttempt {
    pub id: String,
    pub quiz_id: String,
    pub started_at: i64,
    pub completed_at: Option<i64>,
    pub duration_seconds: Option<i64>,
    pub total_questions: u64,
    pub correct_answers: u64,
    pub score_percentage: u32,
    /// Derived: per-question results; only populated by queries.
    pub question_results: Vec<QuestionResult>,
}

#[verifier::ext_equal]
pub ghost struct QuizAttemptV {
    pub id: Seq<char>,
    pub quiz_id: Seq<char>,
    pub started_at: int,
    pub completed_at: Option<i64>,
    pub duration_seconds: Option<i64>,
    pub total_questions: u64,
    pub correct_answers: u64,
    pub score_percentage: u32,
    pub question_results: Seq<QuestionResultV>,
}

impl View for QuizAttempt {
    type V = QuizAttemptV;

    open spec fn view(&self) -> QuizAttemptV {
        QuizAttemptV {
            id: self.id@,
            quiz_id: self.quiz_id@,
            started_at: self.started_at as int,
            completed_at: self.completed_at,
            duration_seconds: self.duration_seconds,
            total_questions: self.total_questions,
            correct_answers: self.correct_answers,
            score_percentage: self.score_percentage,
            question_results: self.question_results@.map_values(|q: QuestionResult| q@),
        }
    }
}

/// Clones an attempt's result list, preserving the view of every element.
pub fn clone_question_results(v: &Vec<QuestionResult>) -> (r: Vec<QuestionResult>)
    ensures
        r@.map_values(|q: QuestionResult| q@) == v@.map_values(|q: QuestionResult| q@),
{
    let n = v.len();
    let mut r: Vec<QuestionResult> = Vec::new();
    let mut i: usize = 0;
    while i < n
        invariant
            n == v.len(),
            i <= n,
            r@.len() == i,
            forall|j: int| 0 <= j < i ==> r@[j]@ == v@[j]@,
        decreases n - i,
    {
        r.push(v[i].clone());
        i += 1;
    }
    proof {
        assert(r@.map_values(|q: QuestionResult| q@) =~= v@.map_values(|q: QuestionResult| q@));
    }
    r
}

impl Clone for QuizAttempt {
    fn clone(&self) -> (r: Self)
        ensures
            r@ == self@,
    {
        let r = QuizAttempt {
            id: self.id.clone(),
            quiz_id: self.quiz_id.clone(),
            started_at: self.started_at,
            completed_at: self.completed_at,
            duration_seconds: self.duration_seconds,
            total_questions: self.total_questions,
            correct_answers: self.correct_answers,
            score_percentage: self.score_percentage,
            question_results: clone_question_results(&self.question_results),
        };
        proof {
            assert(r@ =~= self@);
        }
        r
    }
}

/// The graded outcome of one submitted answer.
pub struct QuestionResult {
    pub id: String,
    pub attempt_id: String,
    pub question_id: String,
    pub user_answer: Option<String>,
    pub is_correct: bool,
}

#[verifier::ext_equal]
pub ghost struct QuestionResultV {
    pub id: Seq<char>,
    pub attempt_id: Seq<char>,
    pub question_id: Seq<char>,
    pub user_answer: Option<Seq<char>>,
    pub is_correct: bool,
}

impl View for QuestionResult {
    type V = QuestionResultV;

    open spec fn view(&self) -> QuestionResultV {
        QuestionResultV {
            id: self.id@,
            attempt_id: self.attempt_id@,
            question_id: self.question_id@,
            user_answer: opt_str(self.user_answer),
            is_correct: self.is_correct,
        }
    }
}

impl Clone for QuestionResult {
    fn clone(&self) -> (r: Self)
        ensures
            r@ == self@,
    {
        QuestionResult {
            id: self.id.clone(),
            attempt_id: self.attempt_id.clone(),
            question_id: self.question_id.clone(),
            user_answer: clone_opt_string(&self.user_answer),
            is_correct: self.is_correct,
        }
    }
}

/// One flashcard-review session against a deck.
pub struct StudySession {
    pub id: String,
    pub deck_id: String,
    pub started_at: i64,
    pub ended_at: Option<i64>,
    pub duration_seconds: Option<i64>,
    pub cards_studied: u64,
}

#[verifier::ext_equal]
pub ghost struct StudySessionV {
    pub id: Seq<char>,
    pub deck_id: Seq<char>,
    pub started_at: int,
    pub ended_at: Option<i64>,
    pub duration_seconds: Option<i64>,
    pub cards_studied: u64,
}

impl View for StudySession {
    type V = StudySessionV;

    open spec fn view(&self) -> StudySessionV {
        StudySessionV {
            id: self.id@,
            deck_id: self.deck_id@,
            started_at: self.started_at as int,
            ended_at: self.ended_at,
            duration_seconds: self.duration_seconds,
            cards_studied: self.cards_studied,
        }
    }
}

impl Clone for StudySession {
    fn clone(&self) -> (r: Self)
        ensures
            r@ == self@,
    {
        StudySession {
            id: self.id.clone(),
            deck_id: self.deck_id.clone(),
            started_at: self.started_at,
            ended_at: self.ended_at,
            duration_seconds: self.duration_seconds,
            cards_studied: self.cards_studied,
        }
    }
}

// ============================================
// Aggregated statistics
// ============================================
/// Rollup over the completed attempts of one quiz. The mean score is
/// reported rounded to the nearest whole percent.
pub struct QuizStats {
    pub quiz_id: String,
    pub total_attempts: u64,
    pub average_score: u32,
    pub best_score: u32,
    pub average_duration_seconds: Option<i64>,
    pub last_attempt_at: Option<i64>,
    /// Scores of the five most recently completed attempts, newest first.
    pub recent_scores: Vec<u32>,
}

/// Rollup over the ended study sessions of one deck.
pub struct DeckStudyStats {
    pub deck_id: String,
    pub total_sessions: u64,
    pub total_study_time_seconds: i64,
    pub total_cards_studied: u64,
    pub last_studied_at: Option<i64>,
}

// ============================================
// Local users
// ============================================
/// A local profile; the password hash never leaves the store.
pub struct LocalUser {
    pub id: String,
    pub name: String,
    pub has_password: bool,
    pub avatar: String,
    pub created_at: i64,
    pub last_login_at: Option<i64>,
}

#[verifier::ext_equal]
pub ghost struct LocalUserV {
    pub id: Seq<char>,
    pub name: Seq<char>,
    pub has_password: bool,
    pub avatar: Seq<char>,
    pub created_at: int,
    pub last_login_at: Option<i64>,
}

impl View for LocalUser {
    type V = LocalUserV;

    open spec fn view(&self) -> LocalUserV {
        LocalUserV {
            id: self.id@,
            name: self.name@,
            has_password: self.has_password,
            avatar: self.avatar@,
            created_at: self.created_at as int,
            last_login_at: self.last_login_at,
        }
    }
}

impl Clone for LocalUser {
    fn clone(&self) -> (r: Self)
        ensures
            r@ == self@,
    {
        LocalUser {
            id: self.id.clone(),
            name: self.name.clone(),
            has_password: self.has_password,
            avatar: self.avatar.clone(),
            created_at: self.created_at,
            last_login_at: self.last_login_at,
        }
    }
}

/// A stored user row: the profile fields plus the password hash.
pub struct UserRow {
    pub id: String,
    pub name: String,
    pub password_hash: Option<String>,
    pub avatar: String,
    pub created_at: i64,
    pub last_login_at: Option<i64>,
}

#[verifier::ext_equal]
pub ghost struct UserRowV {
    pub id: Seq<char>,
    pub name: Seq<char>,
    pub password_hash: Option<Seq<char>>,
    pub avatar: Seq<char>,
    pub created_at: int,
    pub last_login_at: Option<i64>,
}

impl View for UserRow {
    type V = UserRowV;

    open spec fn view(&self) -> UserRowV {
        UserRowV {
            id: self.id@,
            name: self.name@,
            password_hash: opt_str(self.password_hash),
            avatar: self.avatar@,
            created_at: self.created_at as int,
            last_login_at: self.last_login_at,
        }
    }
}

/// The profile a user row presents to callers.
pub open spec fn row_profile(u: UserRowV) -> LocalUserV {
    LocalUserV {
        id: u.id,
        name: u.name,
        has_password: u.password_hash.is_some(),
        avatar: u.avatar,
        created_at: u.created_at,
        last_login_at: u.last_login_at,
    }
}

// ============================================
// Request types
// ============================================
pub struct CreateDeckRequest {
    pub name: String,
    pub description: Option<String>,
    pub shuffle_cards: Option<bool>,
}

pub struct UpdateDeckRequest {
    pub name: String,
    pub description: Option<String>,
    pub shuffle_cards: Option<bool>,
}

pub struct CreateCardRequest {
    pub front: String,
    pub front_type: Option<String>,
    pub front_language: Option<String>,
    pub back: String,
    pub back_type: Option<String>,
    pub back_language: Option<String>,
    pub notes: Option<String>,
}

pub struct UpdateCardRequest {
    pub front: String,
    pub front_type: Option<String>,
    pub front_language: Option<String>,
    pub back: String,
    pub back_type: Option<String>,
    pub back_language: Option<String>,
    pub notes: Option<String>,
}

pub struct CreateQuizRequest {
    pub name: String,
    pub description: Option<String>,
    pub shuffle_questions: Option<bool>,
}

pub struct UpdateQuizRequest {
    pub name: String,
    pub description: Option<String>,
    pub shuffle_questions: Option<bool>,
}

pub struct CreateQuestionRequest {
    pub question_type: String,
    pub content: String,
    pub content_type: Option<String>,
    pub content_language: Option<String>,
    pub correct_answer: Option<String>,
    pub multiple_answers: Option<bool>,
    pub explanation: Option<String>,
    pub choices: Option<Vec<CreateChoiceRequest>>,
}

pub struct UpdateQuestionRequest {
    pub question_type: String,
    pub content: String,
    pub content_type: Option<String>,
    pub content_language: Option<String>,
    pub correct_answer: Option<String>,
    pub multiple_answers: Option<bool>,
    pub explanation: Option<String>,
}

pub struct CreateChoiceRequest {
    pub text: String,
    pub is_correct: bool,
}

pub struct SubmitQuizRequest {
    pub answers: Vec<QuestionAnswer>,
}

/// One submitted answer: choice identifiers, comma-separated, for multiple
/// choice; free text for fill-in-blank.
pub struct QuestionAnswer {
    pub question_id: String,
    pub answer: String,
}

// ============================================
// Sync queue
// ============================================
/// Which kind of entity a queue entry concerns.
#[derive(Clone, Copy, Debug, PartialEq, Eq, Structural)]
pub enum EntityKind {
    Deck,
    Card,
}

/// The operation a queue entry records. Only creations are queued: an
/// entity created locally does not exist on the server until replayed.
#[derive(Clone, Copy, Debug, PartialEq, Eq, Structural)]
pub enum QueueOp {
    Create,
}

/// What a queued deck creation sends to the remote collection.
pub struct DeckPayload {
    pub name: String,
    pub description: Option<String>,
}

#[verifier::ext_equal]
pub ghost struct DeckPayloadV {
    pub name: Seq<char>,
    pub description: Option<Seq<char>>,
}

impl View for DeckPayload {
    type V = DeckPayloadV;

    open spec fn view(&self) -> DeckPayloadV {
        DeckPayloadV { name: self.name@, description: opt_str(self.description) }
    }
}

impl Clone for DeckPayload {
    fn clone(&self) -> (r: Self)
        ensures
            r@ == self@,
    {
        DeckPayload { name: self.name.clone(), description: clone_opt_string(&self.description) }
    }
}

/// What a queued card creation sends to the remote card collection.
pub struct CardPayload {
    pub front: String,
    pub back: String,
    pub front_type: String,
    pub back_type: String,
    pub front_language: Option<String>,
    pub back_language: Option<String>,
    pub notes: Option<String>,
}

#[verifier::ext_equal]
pub ghost struct CardPayloadV {
    pub front: Seq<char>,
    pub back: Seq<char>,
    pub front_type: Seq<char>,
    pub back_type: Seq<char>,
    pub front_language: Option<Seq<char>>,
    pub back_language: Option<Seq<char>>,
    pub notes: Option<Seq<char>>,
}

impl View for CardPayload {
    type V = CardPayloadV;

    open spec fn view(&self) -> CardPayloadV {
        CardPayloadV {
            front: self.front@,
            back: self.back@,
            front_type: self.front_type@,
            back_type: self.back_type@,
            front_language: opt_str(self.front_language),
            back_language: opt_str(self.back_language),
            notes: opt_str(self.notes),
        }
    }
}

impl Clone for CardPayload {
    fn clone(&self) -> (r: Self)
        ensures
            r@ == self@,
    {
        CardPayload {
            front: self.front.clone(),
            back: self.back.clone(),
            front_type: self.front_type.clone(),
            back_type: self.back_type.clone(),
            front_language: clone_opt_string(&self.front_language),
            back_language: clone_opt_string(&self.back_language),
            notes: clone_opt_string(&self.notes),
        }
    }
}

/// The typed payload of a queue entry.
pub enum QueuePayload {
    Deck(DeckPayload),
    Card(CardPayload),
}

#[verifier::ext_equal]
pub ghost enum QueuePayloadV {
    Deck(DeckPayloadV),
    Card(CardPayloadV),
}

impl View for QueuePayload {
    type V = QueuePayloadV;

    open spec fn view(&self) -> QueuePayloadV {
        match self {
            QueuePayload::Deck(p) => QueuePayloadV::Deck(p@),
            QueuePayload::Card(p) => QueuePayloadV::Card(p@),
        }
    }
}

impl Clone for QueuePayload {
    fn clone(&self) -> (r: Self)
        ensures
            r@ == self@,
    {
        match self {
            QueuePayload::Deck(p) => QueuePayload::Deck(p.clone()),
            QueuePayload::Card(p) => QueuePayload::Card(p.clone()),
        }
    }
}

/// An append-only log entry recording an offline creation awaiting
/// transmission; consumed once successfully replayed.
pub struct SyncQueueItem {
    pub id: u64,
    pub entity_type: EntityKind,
    pub entity_id: String,
    pub operation: QueueOp,
    pub payload: QueuePayload,
    pub created_at: i64,
}

#[verifier::ext_equal]
pub ghost struct SyncQueueItemV {
    pub id: u64,
    pub entity_type: EntityKind,
    pub entity_id: Seq<char>,
    pub operation: QueueOp,
    pub payload: QueuePayloadV,
    pub created_at: int,
}

impl View for SyncQueueItem {
    type V = SyncQueueItemV;

    open spec fn view(&self) -> SyncQueueItemV {
        SyncQueueItemV {
            id: self.id,
            entity_type: self.entity_type,
            entity_id: self.entity_id@,
            operation: self.operation,
            payload: self.payload@,
            created_at: self.created_at as int,
        }
    }
}

impl Clone for SyncQueueItem {
    fn clone(&self) -> (r: Self)
        ensures
            r@ == self@,
    {
        SyncQueueItem {
            id: self.id,
            entity_type: self.entity_type,
            entity_id: self.entity_id.clone(),
            operation: self.operation,
            payload: self.payload.clone(),
            created_at: self.created_at,
        }
    }
}

/// A queue entry's type tag must agree with its payload.
pub open spec fn queue_item_coherent(e: SyncQueueItemV) -> bool {
    match e.payload {
        QueuePayloadV::Deck(_) => e.entity_type == EntityKind::Deck,
        QueuePayloadV::Card(_) => e.entity_type == EntityKind::Card,
    }
}

pub struct CreateUserRequest {
    pub name: String,
    pub password: Option<String>,
    pub avatar: Option<String>,
}

pub struct LoginRequest {
    pub user_id: String,
    pub password: Option<String>,
}

} // verus!
