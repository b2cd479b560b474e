//! Grading semantics: exact fill-in-blank matching, multiple-choice set
//! equality, trimming and score arithmetic.
use kioku::grading::{compute_score, grade_answer, split_ids, trim_str};
use kioku::models::{CreateChoiceRequest, CreateQuestionRequest, CreateQuizRequest, Question};
use kioku::store::Store;

fn quiz_with_question(req: CreateQuestionRequest) -> (Store, Question) {
    let mut store = Store::new();
    let quiz = store
        .create_quiz_with_id(
            "quiz-1".to_string(),
            100,
            &CreateQuizRequest { name: "Capitals".to_string(), description: None, shuffle_questions: None },
        )
        .unwrap();
    let q = store.create_question_with_id("question-1".to_string(), quiz.id.as_str(), &req, 100).unwrap();
    (store, q)
}

fn fill_in_blank(correct: &str) -> CreateQuestionRequest {
    CreateQuestionRequest {
        question_type: "fill_in_blank".to_string(),
        content: "Capital of France?".to_string(),
        content_type: None,
        content_language: None,
        correct_answer: Some(correct.to_string()),
        multiple_answers: None,
        explanation: None,
        choices: None,
    }
}

fn multiple_choice(correct_flags: &[bool]) -> CreateQuestionRequest {
    let mut choices = Vec::new();
    for (i, flag) in correct_flags.iter().enumerate() {
        choices.push(CreateChoiceRequest { text: format!("choice {}", i), is_correct: *flag });
    }
    CreateQuestionRequest {
        question_type: "multiple_choice".to_string(),
        content: "Pick the right ones".to_string(),
        content_type: None,
        content_language: None,
        correct_answer: None,
        multiple_answers: Some(true),
        explanation: None,
        choices: Some(choices),
    }
}

#[test]
fn fill_in_blank_is_case_sensitive() {
    let (_store, q) = quiz_with_question(fill_in_blank("Paris"));
    assert!(grade_answer(&q, "Paris"));
    assert!(!grade_answer(&q, "paris"));
    assert!(!grade_answer(&q, " Paris"));
    assert!(!grade_answer(&q, ""));
}

#[test]
fn multiple_choice_order_does_not_matter() {
    let (_store, q) = quiz_with_question(multiple_choice(&[true, false, true]));
    let c1 = q.choices[0].id.clone();
    let c3 = q.choices[2].id.clone();
    let ab = format!("{},{}", c1, c3);
    let ba = format!("{},{}", c3, c1);
    assert!(grade_answer(&q, ab.as_str()));
    assert!(grade_answer(&q, ba.as_str()));
    assert_eq!(grade_answer(&q, ab.as_str()), grade_answer(&q, ba.as_str()));
}

#[test]
fn multiple_choice_rejects_subset_and_superset() {
    let (_store, q) = quiz_with_question(multiple_choice(&[true, false, true]));
    let c1 = q.choices[0].id.clone();
    let c2 = q.choices[1].id.clone();
    let c3 = q.choices[2].id.clone();
    // Strict subset of the correct set.
    assert!(!grade_answer(&q, c1.as_str()));
    // Strict superset of the correct set.
    let all = format!("{},{},{}", c1, c2, c3);
    assert!(!grade_answer(&q, all.as_str()));
    // A wrong choice in place of a right one.
    let wrong = format!("{},{}", c1, c2);
    assert!(!grade_answer(&q, wrong.as_str()));
}

#[test]
fn multiple_choice_duplicate_selection_is_wrong() {
    let (_store, q) = quiz_with_question(multiple_choice(&[true]));
    let c1 = q.choices[0].id.clone();
    assert!(grade_answer(&q, c1.as_str()));
    let twice = format!("{},{}", c1, c1);
    assert!(!grade_answer(&q, twice.as_str()));
}

#[test]
fn submitted_identifiers_are_trimmed() {
    let (_store, q) = quiz_with_question(multiple_choice(&[true, true]));
    let c1 = q.choices[0].id.clone();
    let c2 = q.choices[1].id.clone();
    let spaced = format!("  {} ,\t{}  ", c1, c2);
    assert!(grade_answer(&q, spaced.as_str()));
}

#[test]
fn trim_and_split_behave_like_the_comma_splitter() {
    assert_eq!(trim_str("  a b  ").as_str(), "a b");
    assert_eq!(trim_str("").as_str(), "");
    assert_eq!(trim_str(" \t\r\n ").as_str(), "");
    let parts = split_ids("a, b ,c");
    assert_eq!(parts.len(), 3);
    assert_eq!(parts[0].as_str(), "a");
    assert_eq!(parts[1].as_str(), "b");
    assert_eq!(parts[2].as_str(), "c");
    let single = split_ids("");
    assert_eq!(single.len(), 1);
    assert_eq!(single[0].as_str(), "");
    let trailing = split_ids("a,");
    assert_eq!(trailing.len(), 2);
    assert_eq!(trailing[0].as_str(), "a");
    assert_eq!(trailing[1].as_str(), "");
}

#[test]
fn score_rounds_to_nearest_percent() {
    assert_eq!(compute_score(0, 0), 0);
    assert_eq!(compute_score(0, 3), 0);
    assert_eq!(compute_score(1, 3), 33);
    assert_eq!(compute_score(2, 3), 67);
    assert_eq!(compute_score(3, 3), 100);
    assert_eq!(compute_score(1, 2), 50);
    assert_eq!(compute_score(1, 8), 13);
    assert_eq!(compute_score(1, 200), 1);
}
