//! The text forms of the model enums and the default content type.
use kioku::default_content_type;
use kioku::models::{QuestionType, SyncStatus};

#[test]
fn sync_status_round_trips_through_its_text_form() {
    let all = [
        SyncStatus::LocalOnly,
        SyncStatus::Synced,
        SyncStatus::PendingSync,
        SyncStatus::Conflict,
    ];
    for status in all {
        assert_eq!(SyncStatus::from_str(status.as_str()), status);
    }
    assert_eq!(SyncStatus::from_str("synced"), SyncStatus::Synced);
    assert_eq!(SyncStatus::from_str("pending_sync"), SyncStatus::PendingSync);
    assert_eq!(SyncStatus::from_str("conflict"), SyncStatus::Conflict);
    // Anything unrecognised reads as a local-only entity.
    assert_eq!(SyncStatus::from_str("mystery"), SyncStatus::LocalOnly);
    assert_eq!(SyncStatus::from_str(""), SyncStatus::LocalOnly);
}

#[test]
fn question_type_reads_fill_in_blank_and_defaults_to_multiple_choice() {
    assert_eq!(QuestionType::from_str("fill_in_blank"), QuestionType::FillInBlank);
    assert_eq!(QuestionType::from_str("multiple_choice"), QuestionType::MultipleChoice);
    assert_eq!(QuestionType::from_str("anything else"), QuestionType::MultipleChoice);
}

#[test]
fn the_default_content_type_is_text() {
    assert_eq!(default_content_type().as_str(), "TEXT");
}
