//! The operations that read the ambient capabilities — fresh identifiers
//! and the clock — end to end.
use kioku::models::{CreateCardRequest, CreateQuestionRequest, CreateQuizRequest, CreateUserRequest, QuestionAnswer, SyncStatus};
use kioku::store::Store;

#[test]
fn generated_identifiers_are_hyphenated_and_distinct() {
    let mut store = Store::new();
    let a = store.create_deck_local("First", None, false).unwrap();
    let b = store.create_deck_local("Second", None, false).unwrap();
    assert_eq!(a.id.chars().count(), 36);
    assert_eq!(b.id.chars().count(), 36);
    assert_ne!(a.id, b.id);
    assert_eq!(a.sync_status, SyncStatus::LocalOnly);
    assert!(a.created_at > 0);
    assert_eq!(a.created_at, a.updated_at);
}

#[test]
fn clock_backed_flows_run_end_to_end() {
    let mut store = Store::new();
    let user = store
        .create_user(&CreateUserRequest { name: "Ada".to_string(), password: None, avatar: None })
        .unwrap();
    store.login_user(user.id.as_str(), None).unwrap();
    assert!(store.get_active_user().is_some());

    let deck = store.create_deck_local("Spanish", None, false).unwrap();
    let card = store
        .create_card_local(
            deck.id.as_str(),
            &CreateCardRequest {
                front: "hola".to_string(),
                front_type: None,
                front_language: None,
                back: "hello".to_string(),
                back_type: None,
                back_language: None,
                notes: None,
            },
        )
        .unwrap();
    assert_eq!(card.front_type.as_str(), "TEXT");
    let tag = store.create_tag_local(deck.id.as_str(), "greetings").unwrap();
    assert_eq!(tag.name.as_str(), "greetings");

    let session = store.start_study_session(deck.id.as_str()).unwrap();
    let ended = store.end_study_session(session.id.as_str(), 3).unwrap();
    assert_eq!(ended.cards_studied, 3);
    assert!(ended.duration_seconds.unwrap() >= 0);

    let quiz = store
        .create_quiz(&CreateQuizRequest { name: "Basics".to_string(), description: None, shuffle_questions: None })
        .unwrap();
    let question = store
        .create_question(
            quiz.id.as_str(),
            &CreateQuestionRequest {
                question_type: "fill_in_blank".to_string(),
                content: "hola?".to_string(),
                content_type: None,
                content_language: None,
                correct_answer: Some("hello".to_string()),
                multiple_answers: None,
                explanation: None,
                choices: None,
            },
        )
        .unwrap();
    let attempt = store.start_quiz_attempt(quiz.id.as_str()).unwrap();
    assert_eq!(attempt.total_questions, 1);
    let answers = vec![QuestionAnswer {
        question_id: question.id.clone(),
        answer: "hello".to_string(),
    }];
    let done = store.submit_quiz_attempt(attempt.id.as_str(), &answers).unwrap();
    assert_eq!(done.score_percentage, 100);
    assert!(done.completed_at.is_some());

    let stats = store.get_quiz_stats(quiz.id.as_str());
    assert_eq!(stats.total_attempts, 1);
    assert_eq!(stats.best_score, 100);
    assert_eq!(stats.recent_scores, vec![100]);
}
