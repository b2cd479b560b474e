//! Attempt submission and the statistics rollups.
use kioku::models::{
    AppError, CreateChoiceRequest, CreateQuestionRequest, CreateQuizRequest, QuestionAnswer,
};
use kioku::store::Store;

fn quiz_request(name: &str) -> CreateQuizRequest {
    CreateQuizRequest { name: name.to_string(), description: None, shuffle_questions: None }
}

fn fill_in(content: &str, correct: &str) -> CreateQuestionRequest {
    CreateQuestionRequest {
        question_type: "fill_in_blank".to_string(),
        content: content.to_string(),
        content_type: None,
        content_language: None,
        correct_answer: Some(correct.to_string()),
        multiple_answers: None,
        explanation: None,
        choices: None,
    }
}

fn answer(question_id: &str, text: &str) -> QuestionAnswer {
    QuestionAnswer { question_id: question_id.to_string(), answer: text.to_string() }
}

/// A quiz with three fill-in-blank questions.
fn three_question_quiz() -> (Store, String, Vec<String>) {
    let mut store = Store::new();
    let quiz = store
        .create_quiz_with_id("quiz-1".to_string(), 10, &quiz_request("Capitals"))
        .unwrap();
    let mut qids = Vec::new();
    for (i, (content, correct)) in
        [("France", "Paris"), ("Italy", "Rome"), ("Spain", "Madrid")].iter().enumerate()
    {
        let q = store
            .create_question_with_id(format!("question-{}", i), quiz.id.as_str(), &fill_in(content, correct), 11)
            .unwrap();
        qids.push(q.id);
    }
    (store, quiz.id, qids)
}

#[test]
fn submission_grades_counts_and_scores() {
    let (mut store, quiz_id, qids) = three_question_quiz();
    let attempt = store
        .start_quiz_attempt_with_id("attempt-1".to_string(), quiz_id.as_str(), 100)
        .unwrap();
    assert_eq!(attempt.total_questions, 3);
    let answers = vec![
        answer(qids[0].as_str(), "Paris"),
        answer(qids[1].as_str(), "Milan"),
        answer(qids[2].as_str(), "Madrid"),
    ];
    let done = store
        .submit_quiz_attempt_at(attempt.id.as_str(), &answers, 160)
        .unwrap();
    assert_eq!(done.correct_answers, 2);
    assert_eq!(done.score_percentage, 67);
    assert_eq!(done.duration_seconds, Some(60));
    assert_eq!(done.completed_at, Some(160));
    assert_eq!(done.question_results.len(), 3);
    assert!(done.question_results[0].is_correct);
    assert!(!done.question_results[1].is_correct);
    assert!(done.question_results[2].is_correct);
    assert_eq!(done.question_results[1].user_answer.as_deref(), Some("Milan"));
}

#[test]
fn fill_in_blank_scenario_is_case_sensitive_end_to_end() {
    let mut store = Store::new();
    let quiz = store
        .create_quiz_with_id("quiz-1".to_string(), 10, &quiz_request("France"))
        .unwrap();
    let q = store
        .create_question_with_id("question-1".to_string(), quiz.id.as_str(), &fill_in("France", "Paris"), 11)
        .unwrap();
    let a1 = store
        .start_quiz_attempt_with_id("attempt-1".to_string(), quiz.id.as_str(), 100)
        .unwrap();
    let exact = store
        .submit_quiz_attempt_at(a1.id.as_str(), &vec![answer(q.id.as_str(), "Paris")], 110)
        .unwrap();
    assert!(exact.question_results[0].is_correct);
    assert_eq!(exact.score_percentage, 100);
    let a2 = store
        .start_quiz_attempt_with_id("attempt-2".to_string(), quiz.id.as_str(), 120)
        .unwrap();
    let lower = store
        .submit_quiz_attempt_at(a2.id.as_str(), &vec![answer(q.id.as_str(), "paris")], 130)
        .unwrap();
    assert!(!lower.question_results[0].is_correct);
    assert_eq!(lower.score_percentage, 0);
}

#[test]
fn multiple_choice_scenario_end_to_end() {
    let mut store = Store::new();
    let quiz = store
        .create_quiz_with_id("quiz-1".to_string(), 10, &quiz_request("Sets"))
        .unwrap();
    let q = store
        .create_question_with_id(
            "question-1".to_string(),
            quiz.id.as_str(),
            &CreateQuestionRequest {
                question_type: "multiple_choice".to_string(),
                content: "Pick both".to_string(),
                content_type: None,
                content_language: None,
                correct_answer: None,
                multiple_answers: Some(true),
                explanation: None,
                choices: Some(vec![
                    CreateChoiceRequest { text: "one".to_string(), is_correct: true },
                    CreateChoiceRequest { text: "two".to_string(), is_correct: false },
                    CreateChoiceRequest { text: "three".to_string(), is_correct: true },
                ]),
            },
            11,
        )
        .unwrap();
    let c1 = q.choices[0].id.clone();
    let c2 = q.choices[1].id.clone();
    let c3 = q.choices[2].id.clone();
    let submit = |store: &mut Store, attempt: &str, text: String, at: i64| {
        let a = store
            .start_quiz_attempt_with_id(attempt.to_string(), "quiz-1", at)
            .unwrap();
        store
            .submit_quiz_attempt_at(a.id.as_str(), &vec![answer(q.id.as_str(), text.as_str())], at + 5)
            .unwrap()
    };
    let both = submit(&mut store, "attempt-1", format!("{},{}", c3, c1), 100);
    assert_eq!(both.score_percentage, 100);
    let only_one = submit(&mut store, "attempt-2", c1.clone(), 120);
    assert_eq!(only_one.score_percentage, 0);
    let all_three = submit(&mut store, "attempt-3", format!("{},{},{}", c1, c2, c3), 140);
    assert_eq!(all_three.score_percentage, 0);
}

#[test]
fn stats_on_a_quiz_with_no_completed_attempts_are_zero() {
    let (mut store, quiz_id, _qids) = three_question_quiz();
    // An attempt that was started but never submitted does not count.
    store
        .start_quiz_attempt_with_id("attempt-1".to_string(), quiz_id.as_str(), 100)
        .unwrap();
    let stats = store.get_quiz_stats(quiz_id.as_str());
    assert_eq!(stats.total_attempts, 0);
    assert_eq!(stats.average_score, 0);
    assert_eq!(stats.best_score, 0);
    assert_eq!(stats.average_duration_seconds, None);
    assert_eq!(stats.last_attempt_at, None);
    assert!(stats.recent_scores.is_empty());
}

#[test]
fn stats_aggregate_completed_attempts_newest_first() {
    let (mut store, quiz_id, qids) = three_question_quiz();
    let runs: [(&str, i64, usize); 3] = [("attempt-1", 100, 3), ("attempt-2", 200, 1), ("attempt-3", 300, 2)];
    for (name, at, right) in runs {
        let a = store
            .start_quiz_attempt_with_id(name.to_string(), quiz_id.as_str(), at)
            .unwrap();
        let texts = ["Paris", "Rome", "Madrid"];
        let mut answers = Vec::new();
        for i in 0..3 {
            let text = if i < right { texts[i] } else { "wrong" };
            answers.push(answer(qids[i].as_str(), text));
        }
        store.submit_quiz_attempt_at(a.id.as_str(), &answers, at + 10).unwrap();
    }
    let stats = store.get_quiz_stats(quiz_id.as_str());
    assert_eq!(stats.total_attempts, 3);
    // Scores were 100, 33 and 67; the rounded mean of 200/3 is 67.
    assert_eq!(stats.best_score, 100);
    assert_eq!(stats.average_score, 67);
    assert_eq!(stats.average_duration_seconds, Some(10));
    assert_eq!(stats.last_attempt_at, Some(310));
    assert_eq!(stats.recent_scores, vec![67, 33, 100]);
}

#[test]
fn resubmission_and_oversized_submissions_are_rejected() {
    let (mut store, quiz_id, qids) = three_question_quiz();
    let a = store
        .start_quiz_attempt_with_id("attempt-1".to_string(), quiz_id.as_str(), 100)
        .unwrap();
    // The clock may not run backwards past the start.
    assert!(matches!(
        store.submit_quiz_attempt_at(a.id.as_str(), &vec![answer(qids[0].as_str(), "Paris")], 90),
        Err(AppError::Validation)
    ));
    // More answers than the attempt has questions.
    let mut too_many = Vec::new();
    for _ in 0..4 {
        too_many.push(answer(qids[0].as_str(), "Paris"));
    }
    assert!(matches!(
        store.submit_quiz_attempt_at(a.id.as_str(), &too_many, 110),
        Err(AppError::Validation)
    ));
    // A completed attempt cannot be resubmitted.
    store
        .submit_quiz_attempt_at(a.id.as_str(), &vec![answer(qids[0].as_str(), "Paris")], 120)
        .unwrap();
    assert!(matches!(
        store.submit_quiz_attempt_at(a.id.as_str(), &vec![answer(qids[0].as_str(), "Paris")], 130),
        Err(AppError::Validation)
    ));
    // Unknown attempts and unknown questions are lookup failures.
    assert!(matches!(
        store.submit_quiz_attempt_at("missing", &vec![], 140),
        Err(AppError::NotFound)
    ));
    let b = store
        .start_quiz_attempt_with_id("attempt-2".to_string(), quiz_id.as_str(), 150)
        .unwrap();
    assert!(matches!(
        store.submit_quiz_attempt_at(b.id.as_str(), &vec![answer("missing", "x")], 160),
        Err(AppError::NotFound)
    ));
}

#[test]
fn study_sessions_roll_up_into_deck_stats() {
    let mut store = Store::new();
    let deck = store
        .create_deck_with_id("deck-1".to_string(), 10, "Spanish", None, false)
        .unwrap();
    let s1 = store
        .start_study_session_with_id("session-1".to_string(), deck.id.as_str(), 100)
        .unwrap();
    store.end_study_session_at(s1.id.as_str(), 12, 160).unwrap();
    let s2 = store
        .start_study_session_with_id("session-2".to_string(), deck.id.as_str(), 200)
        .unwrap();
    store.end_study_session_at(s2.id.as_str(), 8, 230).unwrap();
    // A session still running does not count.
    store
        .start_study_session_with_id("session-3".to_string(), deck.id.as_str(), 300)
        .unwrap();
    let stats = store.get_deck_study_stats(deck.id.as_str()).unwrap();
    assert_eq!(stats.total_sessions, 2);
    assert_eq!(stats.total_study_time_seconds, 90);
    assert_eq!(stats.total_cards_studied, 20);
    assert_eq!(stats.last_studied_at, Some(230));
}

#[test]
fn deck_stats_are_zero_without_sessions() {
    let mut store = Store::new();
    let deck = store
        .create_deck_with_id("deck-1".to_string(), 10, "Spanish", None, false)
        .unwrap();
    let stats = store.get_deck_study_stats(deck.id.as_str()).unwrap();
    assert_eq!(stats.total_sessions, 0);
    assert_eq!(stats.total_study_time_seconds, 0);
    assert_eq!(stats.total_cards_studied, 0);
    assert_eq!(stats.last_studied_at, None);
}

#[test]
fn attempts_list_most_recently_started_first() {
    let (mut store, quiz_id, qids) = three_question_quiz();
    for (name, at) in [("attempt-1", 100i64), ("attempt-2", 300), ("attempt-3", 200)] {
        store
            .start_quiz_attempt_with_id(name.to_string(), quiz_id.as_str(), at)
            .unwrap();
    }
    store
        .submit_quiz_attempt_at("attempt-3", &vec![answer(qids[0].as_str(), "Paris")], 250)
        .unwrap();
    let listed = store.get_quiz_attempts(quiz_id.as_str());
    let ids: Vec<String> = listed.iter().map(|a| a.id.clone()).collect();
    assert_eq!(
        ids,
        vec!["attempt-2".to_string(), "attempt-3".to_string(), "attempt-1".to_string()]
    );
    // The listing leaves per-row results empty, even on a completed attempt.
    assert!(listed[1].question_results.is_empty());
    assert_eq!(listed[1].completed_at, Some(250));
}

#[test]
fn choice_replacement_swaps_the_whole_block() {
    let mut store = Store::new();
    store
        .create_quiz_with_id("quiz-1".to_string(), 10, &quiz_request("Sets"))
        .unwrap();
    let q = store
        .create_question_with_id(
            "question-1".to_string(),
            "quiz-1",
            &CreateQuestionRequest {
                question_type: "multiple_choice".to_string(),
                content: "Pick one".to_string(),
                content_type: None,
                content_language: None,
                correct_answer: None,
                multiple_answers: None,
                explanation: None,
                choices: Some(vec![
                    CreateChoiceRequest { text: "old-a".to_string(), is_correct: true },
                    CreateChoiceRequest { text: "old-b".to_string(), is_correct: false },
                ]),
            },
            11,
        )
        .unwrap();
    let replacement = vec![
        CreateChoiceRequest { text: "new-a".to_string(), is_correct: false },
        CreateChoiceRequest { text: "new-b".to_string(), is_correct: true },
        CreateChoiceRequest { text: "new-c".to_string(), is_correct: false },
    ];
    store.update_choices_for_question(q.id.as_str(), &replacement).unwrap();
    let choices = store.get_choices_for_question(q.id.as_str());
    assert_eq!(choices.len(), 3);
    let texts: Vec<String> = choices.iter().map(|c| c.text.clone()).collect();
    assert_eq!(texts, vec!["new-a".to_string(), "new-b".to_string(), "new-c".to_string()]);
    assert!(choices.iter().all(|c| c.question_id == q.id));
    assert_eq!(choices.iter().map(|c| c.position).collect::<Vec<i32>>(), vec![0, 1, 2]);
    assert!(!choices[0].is_correct && choices[1].is_correct && !choices[2].is_correct);
    assert!(matches!(
        store.update_choices_for_question("missing", &replacement),
        Err(AppError::NotFound)
    ));
}

#[test]
fn quizzes_list_most_recently_created_first() {
    let mut store = Store::new();
    store
        .create_quiz_with_id("quiz-1".to_string(), 10, &quiz_request("First"))
        .unwrap();
    store
        .create_quiz_with_id("quiz-2".to_string(), 30, &quiz_request("Second"))
        .unwrap();
    store
        .create_quiz_with_id("quiz-3".to_string(), 20, &quiz_request("Third"))
        .unwrap();
    let ids: Vec<String> = store.get_all_quizzes().into_iter().map(|q| q.id).collect();
    assert_eq!(
        ids,
        vec!["quiz-2".to_string(), "quiz-3".to_string(), "quiz-1".to_string()]
    );
}
