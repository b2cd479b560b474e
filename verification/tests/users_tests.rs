//! Local profiles: password digests, login, the active user and
//! deletion.
use kioku::models::{AppError, CreateUserRequest};
use kioku::store::Store;
use kioku::text::hash_password;

fn request(name: &str, password: Option<&str>) -> CreateUserRequest {
    CreateUserRequest {
        name: name.to_string(),
        password: password.map(|p| p.to_string()),
        avatar: None,
    }
}

#[test]
fn password_digests_are_deterministic_and_distinct() {
    assert_eq!(hash_password("hunter2").as_str(), hash_password("hunter2").as_str());
    assert_ne!(hash_password("hunter2").as_str(), hash_password("hunter3").as_str());
    assert_ne!(hash_password("").as_str(), hash_password("a").as_str());
}

#[test]
fn login_checks_the_stored_digest() {
    let mut store = Store::new();
    let user = store
        .create_user_with_id("user-1".to_string(), &request("Ada", Some("lovelace")), 10)
        .unwrap();
    assert!(user.has_password);
    assert_eq!(user.avatar.as_str(), "avatar-smile");
    assert!(matches!(
        store.login_user_at(user.id.as_str(), Some("wrong"), 20),
        Err(AppError::Auth)
    ));
    assert!(matches!(
        store.login_user_at(user.id.as_str(), None, 20),
        Err(AppError::Auth)
    ));
    let logged = store.login_user_at(user.id.as_str(), Some("lovelace"), 20).unwrap();
    assert_eq!(logged.last_login_at, Some(20));
    let active = store.get_active_user().unwrap();
    assert_eq!(active.id.as_str(), user.id.as_str());
}

#[test]
fn profiles_without_a_password_accept_any_login() {
    let mut store = Store::new();
    let user = store
        .create_user_with_id("user-1".to_string(), &request("Ada", None), 10)
        .unwrap();
    assert!(!user.has_password);
    assert!(store.verify_user_password(user.id.as_str(), None).unwrap());
    assert!(store.verify_user_password(user.id.as_str(), Some("anything")).unwrap());
    store.login_user_at(user.id.as_str(), None, 20).unwrap();
}

#[test]
fn removing_a_password_opens_the_profile() {
    let mut store = Store::new();
    let user = store
        .create_user_with_id("user-1".to_string(), &request("Ada", Some("lovelace")), 10)
        .unwrap();
    let opened = store.remove_user_password(user.id.as_str()).unwrap();
    assert!(!opened.has_password);
    store.login_user_at(user.id.as_str(), None, 20).unwrap();
}

#[test]
fn deleting_the_active_user_logs_out() {
    let mut store = Store::new();
    let user = store
        .create_user_with_id("user-1".to_string(), &request("Ada", None), 10)
        .unwrap();
    store.login_user_at(user.id.as_str(), None, 20).unwrap();
    assert!(store.get_active_user().is_some());
    store.delete_user(user.id.as_str());
    assert!(store.get_active_user().is_none());
    assert!(matches!(store.get_user(user.id.as_str()), Err(AppError::NotFound)));
    assert!(store.get_all_users().is_empty());
}

#[test]
fn updating_a_profile_replaces_what_was_given() {
    let mut store = Store::new();
    let user = store
        .create_user_with_id("user-1".to_string(), &request("Ada", None), 10)
        .unwrap();
    let renamed = store
        .update_user(user.id.as_str(), "Grace", None, Some("avatar-star"))
        .unwrap();
    assert_eq!(renamed.name.as_str(), "Grace");
    assert_eq!(renamed.avatar.as_str(), "avatar-star");
    assert!(!renamed.has_password);
    let secured = store
        .update_user(user.id.as_str(), "Grace", Some("enigma1"), None)
        .unwrap();
    assert!(secured.has_password);
    assert!(store.verify_user_password(user.id.as_str(), Some("enigma1")).unwrap());
    assert!(!store.verify_user_password(user.id.as_str(), Some("enigma2")).unwrap());
    assert!(matches!(
        store.update_user("missing", "X", None, None),
        Err(AppError::NotFound)
    ));
}

#[test]
fn logout_clears_only_the_active_marker() {
    let mut store = Store::new();
    let user = store
        .create_user_with_id("user-1".to_string(), &request("Ada", None), 10)
        .unwrap();
    store.login_user_at(user.id.as_str(), None, 20).unwrap();
    store.logout_user();
    assert!(store.get_active_user().is_none());
    assert!(store.get_user(user.id.as_str()).is_ok());
}

#[test]
fn profiles_list_by_last_login_then_creation() {
    let mut store = Store::new();
    store
        .create_user_with_id("user-1".to_string(), &request("Ada", None), 10)
        .unwrap();
    store
        .create_user_with_id("user-2".to_string(), &request("Grace", None), 20)
        .unwrap();
    store
        .create_user_with_id("user-3".to_string(), &request("Edsger", None), 30)
        .unwrap();
    // Nobody has logged in: most recently created first.
    let ids: Vec<String> = store.get_all_users().into_iter().map(|u| u.id).collect();
    assert_eq!(
        ids,
        vec!["user-3".to_string(), "user-2".to_string(), "user-1".to_string()]
    );
    // A login moves a profile ahead of every never-logged-in one.
    store.login_user_at("user-1", None, 40).unwrap();
    store.login_user_at("user-2", None, 50).unwrap();
    let ids: Vec<String> = store.get_all_users().into_iter().map(|u| u.id).collect();
    assert_eq!(
        ids,
        vec!["user-2".to_string(), "user-1".to_string(), "user-3".to_string()]
    );
}
