//! Deck and quiz bundles, question ordering and profile building.
use kioku::bundles::{
    export_deck_bundle, export_quiz_bundle, import_deck_bundle, import_quiz_bundle, CardImport,
    ChoiceImport, DeckImport, QuestionImport, QuizImport,
};
use kioku::models::{
    AppError, CreateQuestionRequest, CreateQuizRequest, EntityKind, QuestionType, QueueOp,
    QueuePayload, SyncStatus,
};
use kioku::profile::{create_local_user, link_remote_profile, unlink_remote_profile, CreateLocalUserRequest};
use kioku::store::Store;

fn card(front: &str, back: &str) -> CardImport {
    CardImport {
        front: front.to_string(),
        back: back.to_string(),
        front_type: "TEXT".to_string(),
        back_type: "TEXT".to_string(),
        front_language: None,
        back_language: None,
        notes: None,
    }
}

#[test]
fn an_imported_deck_round_trips_through_export() {
    let mut store = Store::new();
    let bundle = DeckImport {
        name: "Spanish".to_string(),
        description: Some("basics".to_string()),
        cards: vec![card("hola", "hello"), card("adios", "goodbye")],
    };
    let result = import_deck_bundle(&mut store, &bundle).unwrap();
    assert_eq!(result.cards_imported, 2);
    assert!(!result.synced);
    assert_eq!(result.deck.sync_status, SyncStatus::LocalOnly);
    // Both the deck and its cards await sync.
    assert_eq!(store.get_pending_count(), 3);
    let exported = export_deck_bundle(&store, result.deck.id.as_str()).unwrap();
    assert_eq!(exported.name.as_str(), "Spanish");
    assert_eq!(exported.description.as_deref(), Some("basics"));
    assert_eq!(exported.cards.len(), 2);
    assert_eq!(exported.cards[0].front.as_str(), "hola");
    assert_eq!(exported.cards[1].back.as_str(), "goodbye");
}

#[test]
fn a_quiz_bundle_imports_with_its_choices() {
    let mut store = Store::new();
    let bundle = QuizImport {
        name: "Geography".to_string(),
        description: None,
        shuffle_questions: false,
        questions: vec![
            QuestionImport {
                question_type: "multiple_choice".to_string(),
                content: "Largest ocean?".to_string(),
                content_type: "TEXT".to_string(),
                content_language: None,
                correct_answer: None,
                multiple_answers: false,
                explanation: None,
                choices: vec![
                    ChoiceImport { text: "Pacific".to_string(), is_correct: true },
                    ChoiceImport { text: "Atlantic".to_string(), is_correct: false },
                ],
            },
            QuestionImport {
                question_type: "fill_in_blank".to_string(),
                content: "Capital of France?".to_string(),
                content_type: "TEXT".to_string(),
                content_language: None,
                correct_answer: Some("Paris".to_string()),
                multiple_answers: false,
                explanation: None,
                choices: vec![],
            },
        ],
    };
    let result = import_quiz_bundle(&mut store, &bundle).unwrap();
    assert_eq!(result.questions_imported, 2);
    let quiz = store.get_quiz(result.quiz.id.as_str()).unwrap();
    assert_eq!(quiz.question_count, Some(2));
    assert_eq!(quiz.questions.len(), 2);
    assert_eq!(quiz.questions[0].question_type, QuestionType::MultipleChoice);
    assert_eq!(quiz.questions[0].choices.len(), 2);
    assert_eq!(quiz.questions[1].question_type, QuestionType::FillInBlank);
    assert_eq!(quiz.questions[1].correct_answer.as_deref(), Some("Paris"));
    let exported = export_quiz_bundle(&store, quiz.id.as_str()).unwrap();
    assert_eq!(exported.questions.len(), 2);
    assert_eq!(exported.questions[0].question_type.as_str(), "multiple_choice");
    assert_eq!(exported.questions[1].question_type.as_str(), "fill_in_blank");
    assert!(matches!(export_quiz_bundle(&store, "missing"), Err(AppError::NotFound)));
}

#[test]
fn questions_list_in_position_order_and_reorder() {
    let mut store = Store::new();
    let quiz = store
        .create_quiz_with_id("quiz-1".to_string(), 10, &CreateQuizRequest {
            name: "Ordered".to_string(),
            description: None,
            shuffle_questions: None,
        })
        .unwrap();
    let req = |content: &str| CreateQuestionRequest {
        question_type: "fill_in_blank".to_string(),
        content: content.to_string(),
        content_type: None,
        content_language: None,
        correct_answer: Some("x".to_string()),
        multiple_answers: None,
        explanation: None,
        choices: None,
    };
    let a = store.create_question_with_id("qa".to_string(), quiz.id.as_str(), &req("first"), 11).unwrap();
    let b = store.create_question_with_id("qb".to_string(), quiz.id.as_str(), &req("second"), 12).unwrap();
    let c = store.create_question_with_id("qc".to_string(), quiz.id.as_str(), &req("third"), 13).unwrap();
    assert_eq!((a.position, b.position, c.position), (0, 1, 2));
    let listed = store.get_questions_for_quiz(quiz.id.as_str());
    assert_eq!(listed[0].content.as_str(), "first");
    assert_eq!(listed[2].content.as_str(), "third");
    // Reverse the order.
    store
        .reorder_questions(quiz.id.as_str(), &vec!["qc".to_string(), "qb".to_string(), "qa".to_string()])
        .unwrap();
    let reordered = store.get_questions_for_quiz(quiz.id.as_str());
    assert_eq!(reordered[0].content.as_str(), "third");
    assert_eq!(reordered[1].content.as_str(), "second");
    assert_eq!(reordered[2].content.as_str(), "first");
}

#[test]
fn deleting_a_quiz_cascades_to_questions_and_choices() {
    let mut store = Store::new();
    let bundle = QuizImport {
        name: "Doomed".to_string(),
        description: None,
        shuffle_questions: false,
        questions: vec![QuestionImport {
            question_type: "multiple_choice".to_string(),
            content: "gone soon".to_string(),
            content_type: "TEXT".to_string(),
            content_language: None,
            correct_answer: None,
            multiple_answers: false,
            explanation: None,
            choices: vec![ChoiceImport { text: "only".to_string(), is_correct: true }],
        }],
    };
    let result = import_quiz_bundle(&mut store, &bundle).unwrap();
    let quiz = store.get_quiz(result.quiz.id.as_str()).unwrap();
    let qid = quiz.questions[0].id.clone();
    store.delete_quiz(quiz.id.as_str());
    assert!(matches!(store.get_quiz(quiz.id.as_str()), Err(AppError::NotFound)));
    assert!(matches!(store.get_question(qid.as_str()), Err(AppError::NotFound)));
    assert!(store.get_choices_for_question(qid.as_str()).is_empty());
}

#[test]
fn question_tags_attach_and_detach() {
    let mut store = Store::new();
    let quiz = store
        .create_quiz_with_id("quiz-1".to_string(), 10, &CreateQuizRequest {
            name: "Tagged".to_string(),
            description: None,
            shuffle_questions: None,
        })
        .unwrap();
    let q = store
        .create_question_with_id(
            "question-1".to_string(),
            quiz.id.as_str(),
            &CreateQuestionRequest {
                question_type: "fill_in_blank".to_string(),
                content: "tagged".to_string(),
                content_type: None,
                content_language: None,
                correct_answer: Some("x".to_string()),
                multiple_answers: None,
                explanation: None,
                choices: None,
            },
            11,
        )
        .unwrap();
    let tag = store
        .create_quiz_tag_with_id("qtag-1".to_string(), quiz.id.as_str(), "hard")
        .unwrap();
    store.add_tag_to_question(q.id.as_str(), tag.id.as_str()).unwrap();
    // Attaching twice is a no-op.
    store.add_tag_to_question(q.id.as_str(), tag.id.as_str()).unwrap();
    let tags = store.get_tags_for_question(q.id.as_str());
    assert_eq!(tags.len(), 1);
    assert_eq!(tags[0].name.as_str(), "hard");
    assert!(store.get_quiz_tag_by_name(quiz.id.as_str(), "hard").is_some());
    store.remove_tag_from_question(q.id.as_str(), tag.id.as_str());
    assert!(store.get_tags_for_question(q.id.as_str()).is_empty());
    store.delete_quiz_tag(quiz.id.as_str(), tag.id.as_str());
    assert!(store.get_tags_for_quiz(quiz.id.as_str()).is_empty());
}

#[test]
fn profile_builders_validate_and_link() {
    let request = CreateLocalUserRequest {
        display_name: "Ada".to_string(),
        email: Some("ada@example.test".to_string()),
        password: Some("short".to_string()),
    };
    assert!(matches!(
        create_local_user(&request, "user-1".to_string(), 10),
        Err(AppError::Validation)
    ));
    let ok = create_local_user(
        &CreateLocalUserRequest {
            display_name: "Ada".to_string(),
            email: None,
            password: Some("longenough".to_string()),
        },
        "user-1".to_string(),
        10,
    )
    .unwrap();
    assert!(ok.is_new);
    assert!(!ok.user.is_linked);
    let linked = link_remote_profile("user-1".to_string(), "ada@example.test".to_string(), 42, 20);
    assert!(linked.is_linked);
    assert_eq!(linked.server_id, Some(42));
    let unlinked = unlink_remote_profile("user-1".to_string(), 30);
    assert!(!unlinked.is_linked);
    assert_eq!(unlinked.server_id, None);
    assert_eq!(unlinked.display_name.as_deref(), Some("Local User"));
}

#[test]
fn an_import_queues_the_deck_then_its_cards_with_their_fields() {
    let mut store = Store::new();
    let bundle = DeckImport {
        name: "Spanish".to_string(),
        description: Some("basics".to_string()),
        cards: vec![card("hola", "hello")],
    };
    let result = import_deck_bundle(&mut store, &bundle).unwrap();
    assert_eq!(result.deck.remote_id, None);
    assert_eq!(result.deck.last_synced_at, None);
    let queue = store.snapshot_queue_ordered();
    assert_eq!(queue.len(), 2);
    assert_eq!(queue[0].entity_type, EntityKind::Deck);
    assert_eq!(queue[0].operation, QueueOp::Create);
    assert_eq!(queue[0].entity_id.as_str(), result.deck.id.as_str());
    match &queue[0].payload {
        QueuePayload::Deck(p) => {
            assert_eq!(p.name.as_str(), "Spanish");
            assert_eq!(p.description.as_deref(), Some("basics"));
        }
        QueuePayload::Card(_) => panic!("expected a deck payload"),
    }
    assert_eq!(queue[1].entity_type, EntityKind::Card);
    assert_eq!(queue[1].operation, QueueOp::Create);
    match &queue[1].payload {
        QueuePayload::Card(p) => {
            assert_eq!(p.front.as_str(), "hola");
            assert_eq!(p.back.as_str(), "hello");
        }
        QueuePayload::Deck(_) => panic!("expected a card payload"),
    }
}
