use storage::config::ConfigStore;
use storage::files::FileStore;
use storage::jwt::now_ts;
use storage::strutil::u128_to_dec;
use storage::users::UserStore;
use storage::Error;

#[test]
fn decimal_rendering_is_exact() {
    assert_eq!(u128_to_dec(0), "0");
    assert_eq!(u128_to_dec(7), "7");
    assert_eq!(u128_to_dec(12345), "12345");
    assert_eq!(u128_to_dec(u128::MAX), "340282366920938463463374607431768211455");
}

#[test]
fn error_kinds_map_to_their_status_codes() {
    assert_eq!(Error::BadRequest(String::from("m")).status_code(), 400);
    assert_eq!(Error::Unauthorized(String::from("m")).status_code(), 401);
    assert_eq!(Error::Forbidden(String::from("m")).status_code(), 403);
    assert_eq!(Error::NotFound(String::from("m")).status_code(), 404);
    assert_eq!(Error::Conflict(String::from("m")).status_code(), 409);
    assert_eq!(Error::Internal(String::from("m")).status_code(), 500);
    assert_eq!(Error::NotFound(String::from("gone")).message(), "gone");
}

#[test]
fn user_store_finds_by_id_and_login() {
    let mut users = UserStore::new();
    let a = users.create("ada", "phc-a").unwrap();
    let b = users.create("bob", "phc-b").unwrap();
    assert_ne!(a, b);
    assert_eq!(users.find_by_id(a).unwrap().login, "ada");
    assert_eq!(users.find_by_login("bob").unwrap().id, b);
    assert!(users.find_by_id(999).is_none());
    assert!(users.find_by_login("eve").is_none());
    assert!(users.login_exists("ada"));
    assert!(!users.login_exists("eve"));
}

#[test]
fn user_store_updates_password_and_deletes() {
    let mut users = UserStore::new();
    let a = users.create("ada", "phc-old").unwrap();
    users.update_password(a, "phc-new");
    assert_eq!(users.find_by_id(a).unwrap().phc, "phc-new");
    users.delete(a);
    assert!(users.find_by_id(a).is_none());
    assert!(!users.login_exists("ada"));
}

#[test]
fn file_store_edit_rename_reposition_delete() {
    let mut files = FileStore::new();
    let now = now_ts();
    let id = files.create("draft.txt", None, 7, now).unwrap();

    let fresh = files.find_by_id(id).unwrap();
    assert_eq!(fresh.name, "draft.txt");
    assert!(fresh.path.is_none());
    assert!(fresh.edited_by.is_none());
    assert!(fresh.deleted_by.is_none());
    assert_eq!(fresh.created_at, now);

    files.rename(id, "/docs/draft.txt");
    files.reposition(id, "storage/7/1");
    files.edit(id, 9, now + 5);
    let edited = files.find_by_id(id).unwrap();
    assert_eq!(edited.name, "/docs/draft.txt");
    assert_eq!(edited.path.as_deref(), Some("storage/7/1"));
    assert_eq!(edited.edited_by, Some(9));
    assert_eq!(edited.edited_at, Some(now + 5));

    files.delete(id, 7, now + 6);
    let deleted = files.find_by_id(id).unwrap();
    assert_eq!(deleted.deleted_by, Some(7));
    assert_eq!(deleted.deleted_at, Some(now + 6));
    // Soft-deleted records drop out of every listing.
    assert!(files.find_all_files("", 7, None).is_empty());
}

#[test]
fn prefix_search_is_owner_scoped() {
    let mut files = FileStore::new();
    let now = now_ts();
    files.create("/docs/a.txt", Some("p1"), 7, now).unwrap();
    files.create("/docs/b.txt", Some("p2"), 8, now).unwrap();
    files.create("/notes/c.txt", Some("p3"), 7, now).unwrap();
    let docs = files.find_all_files("/docs", 7, Some("name"));
    assert_eq!(docs.len(), 1);
    assert_eq!(docs[0].name, "/docs/a.txt");
    let all_mine = files.find_all_files("", 7, None);
    assert_eq!(all_mine.len(), 2);
}

#[test]
fn named_config_updates_change_their_fields() {
    let mut configs = ConfigStore::new();
    configs.init(7).unwrap();
    configs.update_ascending(7, false);
    configs.update_created_at(7, false);
    configs.update_edited_at(7, false);
    configs.update_owned_by(7, false);
    configs.update_edited_by(7, false);
    configs.update_filtered(7, true);
    configs.update_sorted(7, Some(String::from("name")));
    let cfg = configs.get(7).unwrap();
    assert!(!cfg.ascending);
    assert!(!cfg.created_at);
    assert!(!cfg.edited_at);
    assert!(!cfg.owned_by);
    assert!(!cfg.edited_by);
    assert!(cfg.filtered);
    assert_eq!(cfg.sorted.as_deref(), Some("name"));
    // An update for an identity with no row changes nothing, and the row of
    // an unknown identity stays a storage-layer failure to fetch.
    configs.update_ascending(99, false);
    assert!(configs.get(99).is_err());
}

#[test]
fn listing_is_sorted_by_name_for_the_default_key() {
    let mut files = FileStore::new();
    let now = now_ts();
    files.create("/docs/c.txt", Some("p1"), 7, now).unwrap();
    files.create("/docs/a.txt", Some("p2"), 7, now).unwrap();
    files.create("/docs/b.txt", Some("p3"), 7, now).unwrap();
    let by_name = files.find_all_files("/docs", 7, Some("name"));
    let names: Vec<&str> = by_name.iter().map(|f| f.name.as_str()).collect();
    assert_eq!(names, ["/docs/a.txt", "/docs/b.txt", "/docs/c.txt"]);
    let defaulted = files.find_all_files("/docs", 7, None);
    let names: Vec<&str> = defaulted.iter().map(|f| f.name.as_str()).collect();
    assert_eq!(names, ["/docs/a.txt", "/docs/b.txt", "/docs/c.txt"]);
    // Any other key falls back to creation order.
    let by_other = files.find_all_files("/docs", 7, Some("created_at"));
    let names: Vec<&str> = by_other.iter().map(|f| f.name.as_str()).collect();
    assert_eq!(names, ["/docs/c.txt", "/docs/a.txt", "/docs/b.txt"]);
    // Paging walks the sorted listing.
    let page = files.find_paged_files("/docs", 7, "name", 2, 1);
    let names: Vec<&str> = page.iter().map(|f| f.name.as_str()).collect();
    assert_eq!(names, ["/docs/b.txt", "/docs/c.txt"]);
}

#[test]
fn internal_errors_are_masked_for_clients() {
    let internal = Error::Internal(String::from("database exploded"));
    assert_eq!(internal.public_message(), "Something went wrong.");
    let visible = Error::NotFound(String::from("No file with such id"));
    assert_eq!(visible.public_message(), "No file with such id");
}
