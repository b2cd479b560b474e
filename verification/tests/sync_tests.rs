//! The sync queue and its drain pass: ordering, within-pass resolution
//! of parent decks, idempotence of draining, and the offline-to-synced
//! scenario.
use kioku::models::{CreateCardRequest, EntityKind, SyncStatus};
use kioku::store::Store;
use kioku::sync::{DrainPass, DrainStep};

fn new_card_request(front: &str, back: &str) -> CreateCardRequest {
    CreateCardRequest {
        front: front.to_string(),
        front_type: None,
        front_language: None,
        back: back.to_string(),
        back_type: None,
        back_language: None,
        notes: None,
    }
}

#[test]
fn draining_an_empty_queue_is_a_no_op() {
    let mut store = Store::new();
    store
        .create_deck_with_id("deck-1".to_string(), 50, "Spanish", None, false)
        .unwrap();
    // Drain that deck successfully so nothing is left queued.
    let mut pass = DrainPass::begin(&store);
    match pass.next_step() {
        DrainStep::PostDeck(_) => pass.record_success(7),
        _ => panic!("expected a deck post"),
    }
    let synced = pass.finish(&mut store, 60);
    assert_eq!(synced, 1);
    assert_eq!(store.get_pending_count(), 0);
    // Now the queue is empty: a drain synces nothing and changes nothing.
    let before = store.get_all_decks_local();
    let mut empty_pass = DrainPass::begin(&store);
    assert!(matches!(empty_pass.next_step(), DrainStep::Done));
    let again = empty_pass.finish(&mut store, 70);
    assert_eq!(again, 0);
    assert_eq!(store.get_pending_count(), 0);
    let after = store.get_all_decks_local();
    assert_eq!(before.len(), after.len());
    assert_eq!(before[0].sync_status, after[0].sync_status);
    assert_eq!(before[0].remote_id, after[0].remote_id);
    assert_eq!(before[0].updated_at, after[0].updated_at);
}

#[test]
fn card_resolves_through_the_deck_synced_in_the_same_pass() {
    let mut store = Store::new();
    let deck = store
        .create_deck_with_id("deck-1".to_string(), 50, "Spanish", None, false)
        .unwrap();
    let card = store
        .create_card_with_id("card-1".to_string(), deck.id.as_str(), &new_card_request("hola", "hello"), 51)
        .unwrap();
    assert!(card.remote_id.is_none());
    assert_eq!(store.get_pending_count(), 2);
    let mut pass = DrainPass::begin(&store);
    // The deck's create entry is ordered before the card's.
    match pass.next_step() {
        DrainStep::PostDeck(pl) => {
            assert_eq!(pl.name.as_str(), "Spanish");
            pass.record_success(41);
        },
        _ => panic!("expected the deck first"),
    }
    // The card resolves to the remote identifier from this same pass,
    // not to any persisted state.
    match pass.next_step() {
        DrainStep::PostCard(remote_deck, pl) => {
            assert_eq!(remote_deck, 41);
            assert_eq!(pl.front.as_str(), "hola");
            pass.record_success(90);
        },
        _ => panic!("expected the card to resolve"),
    }
    assert!(matches!(pass.next_step(), DrainStep::Done));
    let synced = pass.finish(&mut store, 60);
    assert_eq!(synced, 2);
}

#[test]
fn offline_deck_and_card_become_synced_after_a_drain() {
    let mut store = Store::new();
    let deck = store
        .create_deck_with_id("deck-1".to_string(), 50, "Spanish", None, false)
        .unwrap();
    assert_eq!(deck.sync_status, SyncStatus::LocalOnly);
    let card = store
        .create_card_with_id("card-1".to_string(), deck.id.as_str(), &new_card_request("hola", "hello"), 51)
        .unwrap();
    // Adding the card leaves an offline deck where it was.
    let deck_again = store.get_deck_local(deck.id.as_str()).unwrap();
    assert_eq!(deck_again.sync_status, SyncStatus::LocalOnly);
    // Drain against a reachable server.
    let mut pass = DrainPass::begin(&store);
    let mut next_remote: i64 = 500;
    loop {
        match pass.next_step() {
            DrainStep::PostDeck(_) | DrainStep::PostCard(_, _) => {
                pass.record_success(next_remote);
                next_remote += 1;
            },
            DrainStep::Skip => pass.record_failure(),
            DrainStep::Done => break,
        }
    }
    let synced = pass.finish(&mut store, 75);
    assert_eq!(synced, 2);
    let deck_after = store.get_deck_local(deck.id.as_str()).unwrap();
    assert_eq!(deck_after.sync_status, SyncStatus::Synced);
    assert_eq!(deck_after.remote_id, Some(500));
    assert_eq!(deck_after.last_synced_at, Some(75));
    let card_after = store.get_card_local(card.id.as_str(), deck.id.as_str()).unwrap();
    assert_eq!(card_after.remote_id, Some(501));
    assert_eq!(store.get_pending_count(), 0);
    // A second drain without new mutations synces nothing.
    let mut second = DrainPass::begin(&store);
    assert!(matches!(second.next_step(), DrainStep::Done));
    assert_eq!(second.finish(&mut store, 80), 0);
}

#[test]
fn failed_requests_leave_entries_queued() {
    let mut store = Store::new();
    let deck = store
        .create_deck_with_id("deck-1".to_string(), 50, "Spanish", None, false)
        .unwrap();
    store
        .create_card_with_id("card-1".to_string(), deck.id.as_str(), &new_card_request("uno", "one"), 51)
        .unwrap();
    let mut pass = DrainPass::begin(&store);
    // The deck request fails; the card cannot resolve and is skipped.
    match pass.next_step() {
        DrainStep::PostDeck(_) => pass.record_failure(),
        _ => panic!("expected the deck first"),
    }
    match pass.next_step() {
        DrainStep::Skip => pass.record_failure(),
        other => panic!("expected the card to be unresolvable, got {:?}", discriminant_name(&other)),
    }
    let synced = pass.finish(&mut store, 60);
    assert_eq!(synced, 0);
    // Both entries are still queued for a future pass.
    assert_eq!(store.get_pending_count(), 2);
}

#[test]
fn queue_orders_decks_before_cards() {
    let mut store = Store::new();
    let deck_a = store
        .create_deck_with_id("deck-a".to_string(), 50, "First", None, false)
        .unwrap();
    store
        .create_card_with_id("card-a".to_string(), deck_a.id.as_str(), &new_card_request("x", "y"), 51)
        .unwrap();
    store
        .create_deck_with_id("deck-b".to_string(), 52, "Second", None, false)
        .unwrap();
    let items = store.snapshot_queue_ordered();
    assert_eq!(items.len(), 3);
    assert_eq!(items[0].entity_type, EntityKind::Deck);
    assert_eq!(items[1].entity_type, EntityKind::Deck);
    assert_eq!(items[2].entity_type, EntityKind::Card);
    // First-in-first-out within each kind.
    assert!(items[0].id < items[1].id);
}

fn discriminant_name(step: &DrainStep) -> &'static str {
    match step {
        DrainStep::PostDeck(_) => "PostDeck",
        DrainStep::PostCard(_, _) => "PostCard",
        DrainStep::Skip => "Skip",
        DrainStep::Done => "Done",
    }
}
