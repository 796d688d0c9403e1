use rust_auth_server::logged_user::AuthCache;
use rust_auth_server::logged_user::AuthTrigger;
use rust_auth_server::logged_user::AuthorizedUsers;
use rust_auth_server::logged_user::LoggedUser;
use rust_auth_server::logged_user::FRESHNESS_WINDOW_SECONDS;
use rust_auth_server::models::User;

fn user(email: &str) -> LoggedUser {
    LoggedUser {
        email: email.to_string(),
    }
}

#[test]
fn merge_authorizes_members_and_nobody_else() {
    let mut cache = AuthCache::new();
    let now: i64 = 10_000;
    cache.merge_users(&[user("a@x"), user("b@x")], now);
    assert!(cache.is_authorized_at(&user("a@x"), now));
    assert!(cache.is_authorized_at(&user("b@x"), now));
    assert!(!cache.is_authorized_at(&user("c@x"), now));
}

#[test]
fn remerge_revokes_dropped_identity_and_refreshes_kept_one() {
    let mut cache = AuthCache::new();
    let t1: i64 = 10_000;
    cache.merge_users(&[user("a@x"), user("b@x")], t1);
    let t2 = t1 + FRESHNESS_WINDOW_SECONDS - 1;
    cache.merge_users(&[user("a@x")], t2);
    assert!(!cache.is_authorized_at(&user("b@x"), t2));
    assert!(cache.is_authorized_at(&user("a@x"), t2));
    // The kept identity carries the second merge's timestamp: it stays
    // fresh a full window past t2, where a t1 stamp would have lapsed.
    let later = t2 + FRESHNESS_WINDOW_SECONDS - 1;
    assert!(cache.is_authorized_at(&user("a@x"), later));
}

#[test]
fn authorized_entry_goes_stale_without_any_merge() {
    let mut cache = AuthCache::new();
    let at: i64 = 50_000;
    cache.store_auth(user("a@x"), true, at);
    assert!(cache.is_authorized_at(&user("a@x"), at + FRESHNESS_WINDOW_SECONDS - 1));
    assert!(!cache.is_authorized_at(&user("a@x"), at + FRESHNESS_WINDOW_SECONDS));
    assert!(!cache.is_authorized_at(&user("a@x"), at + FRESHNESS_WINDOW_SECONDS + 1));
}

#[test]
fn store_auth_false_denies() {
    let mut cache = AuthCache::new();
    cache.store_auth(user("a@x"), true, 100);
    cache.store_auth(user("a@x"), false, 200);
    assert!(!cache.is_authorized_at(&user("a@x"), 200));
}

#[test]
fn empty_cache_denies_everyone() {
    let cache = AuthCache::new();
    assert!(!cache.is_authorized_at(&user("a@x"), 0));
}

#[test]
fn merge_with_duplicate_entries_keeps_keys_unique() {
    let mut cache = AuthCache::new();
    cache.merge_users(&[user("a@x"), user("a@x"), user("b@x")], 100);
    let keys = cache.get_keys();
    assert_eq!(keys.len(), 2);
    assert!(keys.iter().any(|u| u.email == "a@x"));
    assert!(keys.iter().any(|u| u.email == "b@x"));
}

#[test]
fn get_keys_reports_revoked_entries_too() {
    let mut cache = AuthCache::new();
    cache.merge_users(&[user("a@x"), user("b@x")], 100);
    cache.merge_users(&[user("a@x")], 200);
    let keys = cache.get_keys();
    // Soft revocation: b@x is demoted, never deleted.
    assert_eq!(keys.len(), 2);
    assert!(keys.iter().any(|u| u.email == "b@x"));
}

#[test]
fn alternating_merges_always_expose_one_consistent_snapshot() {
    // The reader-visible state after every merge is all-or-nothing: each
    // merge publishes a complete generation, so the two sets are never
    // seen mixed.
    let even = [user("a@x"), user("b@x")];
    let odd = [user("c@x"), user("d@x")];
    let shared = AuthorizedUsers::new();
    for round in 0..50i64 {
        let now = 1_000 + round;
        if round % 2 == 0 {
            shared.merge_users(&even, now);
            assert!(shared.is_authorized(&user("a@x"), now));
            assert!(shared.is_authorized(&user("b@x"), now));
            assert!(!shared.is_authorized(&user("c@x"), now));
            assert!(!shared.is_authorized(&user("d@x"), now));
        } else {
            shared.merge_users(&odd, now);
            assert!(shared.is_authorized(&user("c@x"), now));
            assert!(shared.is_authorized(&user("d@x"), now));
            assert!(!shared.is_authorized(&user("a@x"), now));
            assert!(!shared.is_authorized(&user("b@x"), now));
        }
    }
}

#[test]
fn shared_cache_supports_store_and_keys() {
    let shared = AuthorizedUsers::new();
    shared.store_auth(user("a@x"), true, 100);
    assert!(shared.is_authorized(&user("a@x"), 100));
    assert!(!shared.is_authorized(&user("a@x"), 100 + FRESHNESS_WINDOW_SECONDS));
    let keys = shared.get_keys();
    assert_eq!(keys.len(), 1);
    assert_eq!(keys[0].email, "a@x");
}

#[test]
fn apply_refresh_merges_on_success_and_skips_on_failure() {
    let mut cache = AuthCache::new();
    let now: i64 = 10_000;
    let fetched = vec![User::from_details("a@x".to_string(), "pw".to_string(), now)];
    assert!(cache.apply_refresh(Some(&fetched), now));
    assert!(cache.is_authorized_at(&user("a@x"), now));
    assert!(!cache.apply_refresh(None, now + 60));
    assert!(cache.is_authorized_at(&user("a@x"), now + 60));
}

#[test]
fn trigger_reports_true_exactly_once_per_set() {
    let mut trigger = AuthTrigger::new();
    // Initialized raised, so the first refresh happens eagerly.
    assert!(trigger.check());
    assert!(!trigger.check());
    assert!(!trigger.check());
    trigger.set();
    trigger.set();
    assert!(trigger.check());
    assert!(!trigger.check());
}
