//! Entity-store behaviour: the demotion rule of the sync-status state
//! machine, cascade deletion, and the error taxonomy of lookups.
use kioku::models::{AppError, CreateCardRequest, SyncStatus, UpdateCardRequest};
use kioku::store::Store;
use kioku::sync::{DrainPass, DrainStep};

fn card_request(front: &str, back: &str) -> CreateCardRequest {
    CreateCardRequest {
        front: front.to_string(),
        front_type: None,
        front_language: None,
        back: back.to_string(),
        back_type: None,
        back_language: None,
        notes: None,
    }
}

/// A store holding one deck that has already been synced to a server.
fn store_with_synced_deck() -> (Store, String) {
    let mut store = Store::new();
    let deck = store
        .create_deck_with_id("deck-1".to_string(), 50, "Spanish", None, false)
        .unwrap();
    let mut pass = DrainPass::begin(&store);
    match pass.next_step() {
        DrainStep::PostDeck(_) => pass.record_success(9),
        _ => panic!("expected a deck post"),
    }
    pass.finish(&mut store, 55);
    let synced = store.get_deck_local(deck.id.as_str()).unwrap();
    assert_eq!(synced.sync_status, SyncStatus::Synced);
    (store, deck.id)
}

#[test]
fn mutating_a_card_demotes_a_synced_deck_idempotently() {
    let (mut store, deck_id) = store_with_synced_deck();
    let card = store
        .create_card_with_id("card-1".to_string(), deck_id.as_str(), &card_request("uno", "one"), 60)
        .unwrap();
    let demoted = store.get_deck_local(deck_id.as_str()).unwrap();
    assert_eq!(demoted.sync_status, SyncStatus::PendingSync);
    // The remote linkage survives the demotion.
    assert_eq!(demoted.remote_id, Some(9));
    // Repeating a mutation leaves the deck where it is.
    let update = UpdateCardRequest {
        front: "dos".to_string(),
        front_type: None,
        front_language: None,
        back: "two".to_string(),
        back_type: None,
        back_language: None,
        notes: None,
    };
    store
        .update_card_local_at(card.id.as_str(), deck_id.as_str(), &update, 61)
        .unwrap();
    let still = store.get_deck_local(deck_id.as_str()).unwrap();
    assert_eq!(still.sync_status, SyncStatus::PendingSync);
    assert_eq!(still.remote_id, Some(9));
}

#[test]
fn mutating_a_tag_demotes_a_synced_deck() {
    let (mut store, deck_id) = store_with_synced_deck();
    store
        .create_tag_with_id("tag-1".to_string(), deck_id.as_str(), "verbs", 60)
        .unwrap();
    let demoted = store.get_deck_local(deck_id.as_str()).unwrap();
    assert_eq!(demoted.sync_status, SyncStatus::PendingSync);
    // Removing the tag keeps the deck pending.
    store.delete_tag_local(deck_id.as_str(), "tag-1", 61);
    let still = store.get_deck_local(deck_id.as_str()).unwrap();
    assert_eq!(still.sync_status, SyncStatus::PendingSync);
}

#[test]
fn a_local_only_deck_stays_local_only_under_mutation() {
    let mut store = Store::new();
    let deck = store
        .create_deck_with_id("deck-1".to_string(), 50, "Spanish", None, false)
        .unwrap();
    store
        .create_card_with_id("card-1".to_string(), deck.id.as_str(), &card_request("uno", "one"), 60)
        .unwrap();
    let after = store.get_deck_local(deck.id.as_str()).unwrap();
    assert_eq!(after.sync_status, SyncStatus::LocalOnly);
}

#[test]
fn deleting_a_deck_cascades_to_cards_and_tags() {
    let mut store = Store::new();
    let deck = store
        .create_deck_with_id("deck-1".to_string(), 50, "Spanish", None, false)
        .unwrap();
    let card = store
        .create_card_with_id("card-1".to_string(), deck.id.as_str(), &card_request("uno", "one"), 51)
        .unwrap();
    let tag = store
        .create_tag_with_id("tag-1".to_string(), deck.id.as_str(), "verbs", 52)
        .unwrap();
    store
        .add_tag_to_card_local(deck.id.as_str(), card.id.as_str(), tag.id.as_str(), 53)
        .unwrap();
    store.delete_deck_local(deck.id.as_str());
    assert!(matches!(store.get_deck_local(deck.id.as_str()), Err(AppError::NotFound)));
    assert!(matches!(
        store.get_card_local(card.id.as_str(), deck.id.as_str()),
        Err(AppError::NotFound)
    ));
    assert!(store.get_tags_for_deck_local(deck.id.as_str()).is_empty());
    assert!(store.get_tags_for_card_local(card.id.as_str()).is_empty());
    assert!(store.get_cards_for_deck_local(deck.id.as_str()).is_empty());
}

#[test]
fn deck_updates_replace_fields_and_count_cards() {
    let mut store = Store::new();
    let deck = store
        .create_deck_with_id("deck-1".to_string(), 50, "Spanish", Some("romance"), true)
        .unwrap();
    assert_eq!(deck.name.as_str(), "Spanish");
    assert_eq!(deck.description.as_deref(), Some("romance"));
    assert!(deck.shuffle_cards);
    store
        .create_card_with_id("card-1".to_string(), deck.id.as_str(), &card_request("uno", "one"), 51)
        .unwrap();
    store
        .create_card_with_id("card-2".to_string(), deck.id.as_str(), &card_request("dos", "two"), 52)
        .unwrap();
    let listed = store.get_all_decks_local();
    assert_eq!(listed.len(), 1);
    assert_eq!(listed[0].card_count, Some(2));
    let updated = store
        .update_deck_local_at(deck.id.as_str(), "Espanol", None, false, 60)
        .unwrap();
    assert_eq!(updated.name.as_str(), "Espanol");
    assert_eq!(updated.description, None);
    assert!(!updated.shuffle_cards);
    assert_eq!(updated.updated_at, 60);
    assert_eq!(updated.created_at, 50);
}

#[test]
fn duplicate_identifiers_and_missing_parents_are_errors() {
    let mut store = Store::new();
    store
        .create_deck_with_id("deck-1".to_string(), 50, "Spanish", None, false)
        .unwrap();
    assert!(matches!(
        store.create_deck_with_id("deck-1".to_string(), 51, "Other", None, false),
        Err(AppError::Store)
    ));
    assert!(matches!(
        store.create_card_with_id("card-1".to_string(), "missing-deck", &card_request("a", "b"), 51),
        Err(AppError::NotFound)
    ));
    assert!(matches!(
        store.update_deck_local_at("missing-deck", "x", None, false, 51),
        Err(AppError::NotFound)
    ));
}

#[test]
fn deck_update_demotes_synced_state_too() {
    let (mut store, deck_id) = store_with_synced_deck();
    let updated = store
        .update_deck_local_at(deck_id.as_str(), "Espanol", None, false, 70)
        .unwrap();
    assert_eq!(updated.sync_status, SyncStatus::PendingSync);
    assert_eq!(updated.remote_id, Some(9));
}

#[test]
fn tag_lookup_by_name_is_scoped_to_the_deck() {
    let mut store = Store::new();
    let a = store
        .create_deck_with_id("deck-a".to_string(), 50, "A", None, false)
        .unwrap();
    let b = store
        .create_deck_with_id("deck-b".to_string(), 50, "B", None, false)
        .unwrap();
    store
        .create_tag_with_id("tag-1".to_string(), a.id.as_str(), "shared", 51)
        .unwrap();
    assert!(store.get_tag_by_name(a.id.as_str(), "shared").is_some());
    assert!(store.get_tag_by_name(b.id.as_str(), "shared").is_none());
}

#[test]
fn duplicate_tag_names_are_refused_within_a_deck() {
    let mut store = Store::new();
    let a = store
        .create_deck_with_id("deck-a".to_string(), 50, "A", None, false)
        .unwrap();
    let b = store
        .create_deck_with_id("deck-b".to_string(), 50, "B", None, false)
        .unwrap();
    store
        .create_tag_with_id("tag-1".to_string(), a.id.as_str(), "verbs", 51)
        .unwrap();
    assert!(matches!(
        store.create_tag_with_id("tag-2".to_string(), a.id.as_str(), "verbs", 52),
        Err(AppError::Store)
    ));
    // The same name in another deck is allowed.
    let other = store
        .create_tag_with_id("tag-3".to_string(), b.id.as_str(), "verbs", 53)
        .unwrap();
    assert_eq!(other.deck_id.as_str(), b.id.as_str());
    assert_eq!(store.get_tags_for_deck_local(a.id.as_str()).len(), 1);
}

#[test]
fn tags_list_in_name_order() {
    let mut store = Store::new();
    let deck = store
        .create_deck_with_id("deck-1".to_string(), 50, "A", None, false)
        .unwrap();
    store
        .create_tag_with_id("tag-1".to_string(), deck.id.as_str(), "verbs", 51)
        .unwrap();
    store
        .create_tag_with_id("tag-2".to_string(), deck.id.as_str(), "adjectives", 52)
        .unwrap();
    store
        .create_tag_with_id("tag-3".to_string(), deck.id.as_str(), "nouns", 53)
        .unwrap();
    let names: Vec<String> = store
        .get_tags_for_deck_local(deck.id.as_str())
        .into_iter()
        .map(|t| t.name)
        .collect();
    assert_eq!(names, vec!["adjectives".to_string(), "nouns".to_string(), "verbs".to_string()]);
}

#[test]
fn decks_list_most_recently_updated_first() {
    let mut store = Store::new();
    store
        .create_deck_with_id("deck-1".to_string(), 50, "First", None, false)
        .unwrap();
    store
        .create_deck_with_id("deck-2".to_string(), 70, "Second", None, false)
        .unwrap();
    store
        .create_deck_with_id("deck-3".to_string(), 60, "Third", None, false)
        .unwrap();
    let ids: Vec<String> = store.get_all_decks_local().into_iter().map(|d| d.id).collect();
    assert_eq!(ids, vec!["deck-2".to_string(), "deck-3".to_string(), "deck-1".to_string()]);
    // Updating an old deck moves it to the front.
    store.update_deck_local_at("deck-1", "First", None, false, 80).unwrap();
    let ids: Vec<String> = store.get_all_decks_local().into_iter().map(|d| d.id).collect();
    assert_eq!(ids[0].as_str(), "deck-1");
}

#[test]
fn cards_list_earliest_created_first() {
    let mut store = Store::new();
    let deck = store
        .create_deck_with_id("deck-1".to_string(), 50, "Spanish", None, false)
        .unwrap();
    store
        .create_card_with_id("card-1".to_string(), deck.id.as_str(), &card_request("uno", "one"), 60)
        .unwrap();
    store
        .create_card_with_id("card-2".to_string(), deck.id.as_str(), &card_request("dos", "two"), 40)
        .unwrap();
    store
        .create_card_with_id("card-3".to_string(), deck.id.as_str(), &card_request("tres", "three"), 50)
        .unwrap();
    let ids: Vec<String> = store
        .get_cards_for_deck_local(deck.id.as_str())
        .into_iter()
        .map(|c| c.id)
        .collect();
    assert_eq!(ids, vec!["card-2".to_string(), "card-3".to_string(), "card-1".to_string()]);
}
