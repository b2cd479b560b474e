//! Structured deck and quiz bundles: the shapes a deck or quiz takes
//! when exported to, or imported from, a file, and the verified store
//! work behind both directions. Reading and writing the file itself, and
//! its serialization, stay outside the library.
use vstd::prelude::*;

use crate::capability::now_seconds;
use crate::models::{
    opt_str, AppError, CreateCardRequest, CreateChoiceRequest, CreateQuestionRequest,
    CreateQuizRequest, Deck, QuestionType, SyncStatus,
};
use crate::store::{
    card_matches_request, has_deck, has_quiz, quiz_questions_view, Store,
};

verus! {

/// A deck as it arrives from a bundle.
pub struct DeckImport {
    pub name: String,
    pub description: Option<String>,
    pub cards: Vec<CardImport>,
}

/// A card as it arrives from a bundle.
pub struct CardImport {
    pub front: String,
    pub back: String,
    pub front_type: String,
    pub back_type: String,
    pub front_language: Option<String>,
    pub back_language: Option<String>,
    pub notes: Option<String>,
}

/// A deck as it leaves for a bundle.
pub struct DeckExport {
    pub name: String,
    pub description: Option<String>,
    pub cards: Vec<CardExport>,
    pub exported_at: i64,
}

/// A card as it leaves for a bundle.
pub struct CardExport {
    pub front: String,
    pub back: String,
    pub front_type: String,
    pub back_type: String,
    pub front_language: Option<String>,
    pub back_language: Option<String>,
    pub notes: Option<String>,
}

/// What an import produced: the deck, how many cards followed it, and
/// whether the work reached a server (a store-only import never does).
pub struct ImportResult {
    pub deck: Deck,
    pub cards_imported: u64,
    pub synced: bool,
}

/// A quiz as it arrives from a bundle.
pub struct QuizImport {
    pub name: String,
    pub description: Option<String>,
    pub shuffle_questions: bool,
    pub questions: Vec<QuestionImport>,
}

/// A question as it arrives from a bundle.
pub struct QuestionImport {
    pub question_type: String,
    pub content: String,
    pub content_type: String,
    pub content_language: Option<String>,
    pub correct_answer: Option<String>,
    pub multiple_answers: bool,
    pub explanation: Option<String>,
    pub choices: Vec<ChoiceImport>,
}

/// A choice as it arrives from a bundle.
pub struct ChoiceImport {
    pub text: String,
    pub is_correct: bool,
}

/// A quiz as it leaves for a bundle.
pub struct QuizExport {
    pub name: String,
    pub description: Option<String>,
    pub shuffle_questions: bool,
    pub questions: Vec<QuestionExport>,
    pub exported_at: i64,
}

/// A question as it leaves for a bundle.
pub struct QuestionExport {
    pub question_type: String,
    pub content: String,
    pub content_type: String,
    pub content_language: Option<String>,
    pub correct_answer: Option<String>,
    pub multiple_answers: bool,
    pub explanation: Option<String>,
    pub choices: Vec<ChoiceExport>,
    pub tags: Vec<String>,
}

/// A choice as it leaves for a bundle.
pub struct ChoiceExport {
    pub text: String,
    pub is_correct: bool,
}

/// What a quiz import produced.
pub struct QuizImportResult {
    pub quiz: crate::models::Quiz,
    pub questions_imported: u64,
}

/// Imports a deck bundle into the store: one offline deck creation
/// followed by one card creation per bundled card. The deck arrives
/// `LocalOnly` with no remote identifier, and the queue grows by one
/// deck-create entry and one card-create entry per card, their payloads
/// carrying the imported fields. Identifier-generation failure surfaces
/// as a store error and, like any failing batch of row insertions, may
/// leave a prefix of the bundle imported.
pub fn import_deck_bundle(store: &mut Store, bundle: &DeckImport) -> (r: Result<
    ImportResult,
    AppError,
>)
    requires
        old(store).wf(),
    ensures
        final(store).wf(),
        r matches Ok(res) ==> {
            &&& res.cards_imported == bundle.cards@.len()
            &&& !res.synced
            &&& res.deck@.name == bundle.name@
            &&& res.deck@.description == opt_str(bundle.description)
            &&& res.deck@.sync_status == SyncStatus::LocalOnly
            &&& res.deck@.remote_id.is_none()
            &&& res.deck@.last_synced_at.is_none()
            &&& has_deck(final(store)@, res.deck@.id)
            &&& final(store)@.queue.len() == old(store)@.queue.len() + 1 + bundle.cards@.len()
            &&& final(store)@.cards.len() == old(store)@.cards.len() + bundle.cards@.len()
            &&& (forall|j: int|
                0 <= j < old(store)@.cards.len() ==> #[trigger] final(store)@.cards[j] == old(
                    store,
                )@.cards[j])
            &&& (forall|j: int|
                0 <= j < bundle.cards@.len() ==> {
                    let c = #[trigger] final(store)@.cards[old(store)@.cards.len() + j];
                    &&& c.deck_id == res.deck@.id
                    &&& c.remote_id.is_none()
                    &&& c.front == bundle.cards@[j].front@
                    &&& c.front_type == bundle.cards@[j].front_type@
                    &&& c.back == bundle.cards@[j].back@
                    &&& c.back_type == bundle.cards@[j].back_type@
                    &&& c.notes == opt_str(bundle.cards@[j].notes)
                })
            &&& (forall|j: int|
                0 <= j < old(store)@.queue.len() ==> #[trigger] final(store)@.queue[j] == old(
                    store,
                )@.queue[j])
            &&& ({
                let e = final(store)@.queue[old(store)@.queue.len() as int];
                e == crate::store::deck_queue_entry(e.id, res.deck@)
            })
            &&& (forall|j: int|
                0 <= j < bundle.cards@.len() ==> {
                    let e = #[trigger] final(store)@.queue[old(store)@.queue.len() + 1 + j];
                    e == crate::store::card_queue_entry(
                        e.id,
                        final(store)@.cards[old(store)@.cards.len() + j],
                    )
                })
        },
        r is Err ==> r == Result::<ImportResult, AppError>::Err(AppError::Store),
{
    let deck = match store.create_deck_local(
        bundle.name.as_str(),
        match &bundle.description {
            Option::Some(d) => Option::Some(d.as_str()),
            Option::None => Option::None,
        },
        false,
    ) {
        Result::Ok(d) => d,
        Result::Err(_) => {
            return Result::Err(AppError::Store);
        },
    };
    let n = bundle.cards.len();
    let ghost base = store@.cards.len() as int;
    let ghost qbase = store@.queue.len() as int;
    let ghost deck_idv = deck@.id;
    let ghost deckv = deck@;
    proof {
        assert(store@.decks[store@.decks.len() - 1].id == deck_idv);
        assert(qbase == old(store)@.queue.len() + 1);
        assert(store@.queue[old(store)@.queue.len() as int] == crate::store::deck_queue_entry(
            old(store)@.next_queue_id,
            deckv,
        ));
    }
    let mut k: usize = 0;
    while k < n
        invariant
            store.wf(),
            n == bundle.cards@.len(),
            k <= n,
            deck_idv == deck.id@,
            deckv == deck@,
            base == old(store)@.cards.len() as int,
            qbase == old(store)@.queue.len() + 1,
            store@.queue.len() == qbase + k,
            has_deck(store@, deck_idv),
            store@.cards.len() == base + k,
            forall|j: int| 0 <= j < base ==> #[trigger] store@.cards[j] == old(store)@.cards[j],
            forall|j: int|
                0 <= j < k ==> {
                    let c = #[trigger] store@.cards[base + j];
                    &&& c.deck_id == deck_idv
                    &&& c.remote_id.is_none()
                    &&& c.front == bundle.cards@[j].front@
                    &&& c.front_type == bundle.cards@[j].front_type@
                    &&& c.back == bundle.cards@[j].back@
                    &&& c.back_type == bundle.cards@[j].back_type@
                    &&& c.notes == opt_str(bundle.cards@[j].notes)
                },
            forall|j: int|
                0 <= j < old(store)@.queue.len() ==> #[trigger] store@.queue[j] == old(
                    store,
                )@.queue[j],
            ({
                let e = store@.queue[old(store)@.queue.len() as int];
                e == crate::store::deck_queue_entry(e.id, deckv)
            }),
            forall|j: int|
                0 <= j < k ==> {
                    let e = #[trigger] store@.queue[qbase + j];
                    e == crate::store::card_queue_entry(e.id, store@.cards[base + j])
                },
        decreases n - k,
    {
        let cb = &bundle.cards[k];
        let req = CreateCardRequest {
            front: cb.front.clone(),
            front_type: Option::Some(cb.front_type.clone()),
            front_language: crate::models::clone_opt_string(&cb.front_language),
            back: cb.back.clone(),
            back_type: Option::Some(cb.back_type.clone()),
            back_language: crate::models::clone_opt_string(&cb.back_language),
            notes: crate::models::clone_opt_string(&cb.notes),
        };
        let ghost prev = store@;
        match store.create_card_local(deck.id.as_str(), &req) {
            Result::Ok(c) => {
                proof {
                    assert(crate::store::card_created(prev, store@, c@, deck_idv, req));
                    assert(card_matches_request(c@, deck_idv, req));
                    assert(store@.cards =~= prev.cards.push(c@));
                    assert(store@.queue =~= prev.queue.push(
                        crate::store::card_queue_entry(prev.next_queue_id, c@),
                    ));
                    assert(store@.queue[qbase + k as int].id == prev.next_queue_id);
                    crate::store::lemma_demote_decks_preserves_ids(
                        prev.decks,
                        deck_idv,
                        c@.created_at,
                    );
                    let m = choose|m: int|
                        0 <= m < prev.decks.len() && prev.decks[m].id == deck_idv;
                    assert(store@.decks[m].id == deck_idv);
                }
            },
            Result::Err(_) => {
                return Result::Err(AppError::Store);
            },
        }
        k += 1;
    }
    Result::Ok(ImportResult { deck, cards_imported: n as u64, synced: false })
}

/// Exports a deck and its cards — earliest created first — to a
/// bundle, stamped with the current time. `NotFound` exactly when the
/// deck does not exist.
pub fn export_deck_bundle(store: &Store, deck_id: &str) -> (r: Result<DeckExport, AppError>)
    requires
        store.wf(),
    ensures
        r matches Ok(e) ==> exists|i: int|
            {
                &&& 0 <= i < store@.decks.len()
                &&& store@.decks[i].id == deck_id@
                &&& e.name@ == store@.decks[i].name
                &&& opt_str(e.description) == store@.decks[i].description
                &&& e.cards@.len() == crate::store::cards_of_deck(store@, deck_id@).len()
                &&& (forall|j: int|
                    0 <= j < e.cards@.len() ==> {
                        let c = crate::store::deck_cards_view(store@, deck_id@)[j];
                        &&& (#[trigger] e.cards@[j]).front@ == c.front
                        &&& e.cards@[j].back@ == c.back
                        &&& e.cards@[j].front_type@ == c.front_type
                        &&& e.cards@[j].back_type@ == c.back_type
                        &&& opt_str(e.cards@[j].notes) == c.notes
                    })
            },
        r is Ok <==> has_deck(store@, deck_id@),
        r is Err ==> r == Result::<DeckExport, AppError>::Err(AppError::NotFound),
{
    let deck = match store.get_deck_local(deck_id) {
        Result::Ok(d) => d,
        Result::Err(_) => {
            return Result::Err(AppError::NotFound);
        },
    };
    let cards = store.get_cards_for_deck_local(deck_id);
    let n = cards.len();
    let mut out: Vec<CardExport> = Vec::new();
    let mut k: usize = 0;
    while k < n
        invariant
            n == cards@.len(),
            k <= n,
            cards@.map_values(|x: crate::models::Card| x@) == crate::store::deck_cards_view(
                store@,
                deck_id@,
            ),
            out@.len() == k,
            forall|j: int|
                0 <= j < k ==> {
                    let c = crate::store::deck_cards_view(store@, deck_id@)[j];
                    &&& (#[trigger] out@[j]).front@ == c.front
                    &&& out@[j].back@ == c.back
                    &&& out@[j].front_type@ == c.front_type
                    &&& out@[j].back_type@ == c.back_type
                    &&& opt_str(out@[j].notes) == c.notes
                },
        decreases n - k,
    {
        let c = &cards[k];
        let e = CardExport {
            front: c.front.clone(),
            back: c.back.clone(),
            front_type: c.front_type.clone(),
            back_type: c.back_type.clone(),
            front_language: crate::models::clone_opt_string(&c.front_language),
            back_language: crate::models::clone_opt_string(&c.back_language),
            notes: crate::models::clone_opt_string(&c.notes),
        };
        proof {
            assert(cards@[k as int]@ == crate::store::deck_cards_view(store@, deck_id@)[k as int]);
        }
        out.push(e);
        k += 1;
    }
    let now = now_seconds();
    Result::Ok(
        DeckExport {
            name: deck.name,
            description: deck.description,
            cards: out,
            exported_at: now,
        },
    )
}

/// Imports a quiz bundle: one quiz creation followed by one question
/// creation (with its choices) per bundled question.
pub fn import_quiz_bundle(store: &mut Store, bundle: &QuizImport) -> (r: Result<
    QuizImportResult,
    AppError,
>)
    requires
        old(store).wf(),
    ensures
        final(store).wf(),
        r matches Ok(res) ==> {
            &&& res.questions_imported == bundle.questions@.len()
            &&& res.quiz@.name == bundle.name@
            &&& res.quiz@.description == opt_str(bundle.description)
            &&& res.quiz@.shuffle_questions == bundle.shuffle_questions
            &&& has_quiz(final(store)@, res.quiz@.id)
            &&& final(store)@.questions.len() == old(store)@.questions.len()
                + bundle.questions@.len()
            &&& (forall|j: int|
                0 <= j < old(store)@.questions.len() ==> #[trigger] final(store)@.questions[j]
                    == old(store)@.questions[j])
            &&& (forall|j: int|
                0 <= j < bundle.questions@.len() ==> {
                    let q = #[trigger] final(store)@.questions[old(store)@.questions.len() + j];
                    &&& q.quiz_id == res.quiz@.id
                    &&& q.content == bundle.questions@[j].content@
                    &&& (q.question_type == crate::models::QuestionType::FillInBlank
                        <==> bundle.questions@[j].question_type@ == "fill_in_blank"@)
                    &&& q.correct_answer == opt_str(bundle.questions@[j].correct_answer)
                })
        },
        r is Err ==> r == Result::<QuizImportResult, AppError>::Err(AppError::Store),
{
    let quiz = match store.create_quiz(
        &CreateQuizRequest {
            name: bundle.name.clone(),
            description: crate::models::clone_opt_string(&bundle.description),
            shuffle_questions: Option::Some(bundle.shuffle_questions),
        },
    ) {
        Result::Ok(q) => q,
        Result::Err(_) => {
            return Result::Err(AppError::Store);
        },
    };
    let n = bundle.questions.len();
    let ghost quiz_idv = quiz@.id;
    let ghost base = store@.questions.len() as int;
    proof {
        assert(store@.quizzes[store@.quizzes.len() - 1].id == quiz_idv);
    }
    let mut k: usize = 0;
    while k < n
        invariant
            store.wf(),
            n == bundle.questions@.len(),
            k <= n,
            quiz_idv == quiz.id@,
            base == old(store)@.questions.len() as int,
            has_quiz(store@, quiz_idv),
            store@.questions.len() == base + k,
            forall|j: int|
                0 <= j < base ==> #[trigger] store@.questions[j] == old(store)@.questions[j],
            forall|j: int|
                0 <= j < k ==> {
                    let q = #[trigger] store@.questions[base + j];
                    &&& q.quiz_id == quiz_idv
                    &&& q.content == bundle.questions@[j].content@
                    &&& (q.question_type == crate::models::QuestionType::FillInBlank
                        <==> bundle.questions@[j].question_type@ == "fill_in_blank"@)
                    &&& q.correct_answer == opt_str(bundle.questions@[j].correct_answer)
                },
        decreases n - k,
    {
        let qb = &bundle.questions[k];
        let nq = qb.choices.len();
        let mut choices: Vec<CreateChoiceRequest> = Vec::new();
        let mut j: usize = 0;
        while j < nq
            invariant
                nq == qb.choices@.len(),
                j <= nq,
            decreases nq - j,
        {
            choices.push(
                CreateChoiceRequest {
                    text: qb.choices[j].text.clone(),
                    is_correct: qb.choices[j].is_correct,
                },
            );
            j += 1;
        }
        let req = CreateQuestionRequest {
            question_type: qb.question_type.clone(),
            content: qb.content.clone(),
            content_type: Option::Some(qb.content_type.clone()),
            content_language: crate::models::clone_opt_string(&qb.content_language),
            correct_answer: crate::models::clone_opt_string(&qb.correct_answer),
            multiple_answers: Option::Some(qb.multiple_answers),
            explanation: crate::models::clone_opt_string(&qb.explanation),
            choices: Option::Some(choices),
        };
        let ghost prev = store@;
        match store.create_question(quiz.id.as_str(), &req) {
            Result::Ok(q) => {
                proof {
                    assert(crate::store::question_created(prev, store@, q@, quiz_idv, req));
                    assert(store@.questions =~= prev.questions.push(
                        crate::store::stored_question(q@),
                    ));
                }
            },
            Result::Err(_) => {
                return Result::Err(AppError::Store);
            },
        }
        k += 1;
    }
    Result::Ok(QuizImportResult { quiz, questions_imported: n as u64 })
}

/// Exports a quiz with its questions, choices and tag names, stamped
/// with the current time. `NotFound` exactly when the quiz does not
/// exist.
pub fn export_quiz_bundle(store: &Store, quiz_id: &str) -> (r: Result<QuizExport, AppError>)
    requires
        store.wf(),
    ensures
        r matches Ok(e) ==> {
            &&& e.questions@.len() == quiz_questions_view(store@, quiz_id@).len()
            &&& (forall|j: int|
                0 <= j < e.questions@.len() ==> {
                    let q = quiz_questions_view(store@, quiz_id@)[j];
                    &&& (#[trigger] e.questions@[j]).content@ == q.content
                    &&& (e.questions@[j].question_type@ == "fill_in_blank"@ <==> q.question_type
                        == QuestionType::FillInBlank)
                    &&& opt_str(e.questions@[j].correct_answer) == q.correct_answer
                    &&& e.questions@[j].choices@.len() == q.choices.len()
                })
        },
        r is Ok <==> has_quiz(store@, quiz_id@),
        r is Err ==> r == Result::<QuizExport, AppError>::Err(AppError::NotFound),
{
    let quiz = match store.get_quiz(quiz_id) {
        Result::Ok(q) => q,
        Result::Err(_) => {
            return Result::Err(AppError::NotFound);
        },
    };
    let n = quiz.questions.len();
    let mut out: Vec<QuestionExport> = Vec::new();
    let mut k: usize = 0;
    while k < n
        invariant
            n == quiz.questions@.len(),
            quiz.questions@.map_values(|q: crate::models::Question| q@) == quiz_questions_view(
                store@,
                quiz_id@,
            ),
            k <= n,
            out@.len() == k,
            forall|j: int|
                0 <= j < k ==> {
                    let q = quiz_questions_view(store@, quiz_id@)[j];
                    &&& (#[trigger] out@[j]).content@ == q.content
                    &&& (out@[j].question_type@ == "fill_in_blank"@ <==> q.question_type
                        == QuestionType::FillInBlank)
                    &&& opt_str(out@[j].correct_answer) == q.correct_answer
                    &&& out@[j].choices@.len() == q.choices.len()
                },
        decreases n - k,
    {
        let q = &quiz.questions[k];
        let type_text = match q.question_type {
            QuestionType::FillInBlank => "fill_in_blank",
            QuestionType::MultipleChoice => "multiple_choice",
        };
        proof {
            reveal_strlit("fill_in_blank");
            reveal_strlit("multiple_choice");
            assert("fill_in_blank"@.len() == 13 && "multiple_choice"@.len() == 15);
        }
        let nc = q.choices.len();
        let mut ce: Vec<ChoiceExport> = Vec::new();
        let mut j: usize = 0;
        while j < nc
            invariant
                nc == q.choices@.len(),
                j <= nc,
                ce@.len() == j,
            decreases nc - j,
        {
            ce.push(
                ChoiceExport { text: q.choices[j].text.clone(), is_correct: q.choices[j].is_correct },
            );
            j += 1;
        }
        let nt = q.tags.len();
        let mut tn: Vec<String> = Vec::new();
        let mut j: usize = 0;
        while j < nt
            invariant
                nt == q.tags@.len(),
                j <= nt,
            decreases nt - j,
        {
            tn.push(q.tags[j].name.clone());
            j += 1;
        }
        let e = QuestionExport {
            question_type: type_text.to_owned(),
            content: q.content.clone(),
            content_type: q.content_type.clone(),
            content_language: crate::models::clone_opt_string(&q.content_language),
            correct_answer: crate::models::clone_opt_string(&q.correct_answer),
            multiple_answers: q.multiple_answers,
            explanation: crate::models::clone_opt_string(&q.explanation),
            choices: ce,
            tags: tn,
        };
        proof {
            assert(quiz.questions@[k as int]@ == quiz_questions_view(store@, quiz_id@)[k as int]);
        }
        out.push(e);
        k += 1;
    }
    let now = now_seconds();
    Result::Ok(
        QuizExport {
            name: quiz.name,
            description: quiz.description,
            shuffle_questions: quiz.shuffle_questions,
            questions: out,
            exported_at: now,
        },
    )
}

} // verus!
