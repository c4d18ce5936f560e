use storage::api::{
    download_file, find_files, get_config, get_folder, login, put_config, register, upload_file,
    ConfigUpdate, Credentials, SearchQuery, UploadField,
};
use storage::auth::{authenticate, User};
use storage::config::ConfigStore;
use storage::disk::Disk;
use storage::files::FileStore;
use storage::jwt::now_ts;
use storage::users::UserStore;
use storage::Error;

fn file_part(filename: &str, data: &[u8]) -> UploadField {
    UploadField {
        name: String::from("file"),
        filename: Some(String::from(filename)),
        data: data.to_vec(),
        text: String::new(),
    }
}

fn dest_part(text: &str) -> UploadField {
    UploadField {
        name: String::from("destination"),
        filename: None,
        data: text.as_bytes().to_vec(),
        text: String::from(text),
    }
}

#[test]
fn upload_success() {
    let mut files = FileStore::new();
    let mut disk = Disk::new();
    let user = User { id: 7 };
    let fields = vec![dest_part("/docs"), file_part("test.txt", b"hello world")];
    let id = upload_file(&mut files, &mut disk, &user, &fields, now_ts()).unwrap();
    let record = files.find_by_id(id).unwrap();
    assert_eq!(record.name, "/docs/test.txt");
    assert_eq!(record.owned_by, 7);
    assert!(record.path.is_some());
}

#[test]
fn download_success() {
    let mut files = FileStore::new();
    let mut disk = Disk::new();
    let user = User { id: 7 };
    let fields = vec![dest_part("/docs"), file_part("hello.txt", b"Hello World!")];
    let id = upload_file(&mut files, &mut disk, &user, &fields, now_ts()).unwrap();
    let body = download_file(&files, &disk, &user, id).unwrap();
    assert_eq!(body, b"Hello World!".to_vec());
}

#[test]
fn upload_parts_arrive_in_either_order() {
    let mut files = FileStore::new();
    let mut disk = Disk::new();
    let user = User { id: 7 };
    let fields = vec![file_part("a.txt", b"payload"), dest_part("/docs")];
    let id = upload_file(&mut files, &mut disk, &user, &fields, now_ts()).unwrap();
    assert_eq!(files.find_by_id(id).unwrap().name, "/docs/a.txt");
    assert_eq!(download_file(&files, &disk, &user, id).unwrap(), b"payload".to_vec());
}

#[test]
fn upload_missing_destination_is_bad_request() {
    let mut files = FileStore::new();
    let mut disk = Disk::new();
    let user = User { id: 7 };
    let fields = vec![file_part("test.txt", b"hello world")];
    let outcome = upload_file(&mut files, &mut disk, &user, &fields, now_ts());
    match outcome {
        Err(Error::BadRequest(message)) => {
            assert_eq!(message, "Multipart missing \"destination\" field.");
        },
        other => panic!("expected a bad request, got {:?}", other),
    }
}

#[test]
fn upload_missing_file_is_bad_request() {
    let mut files = FileStore::new();
    let mut disk = Disk::new();
    let user = User { id: 7 };
    let fields = vec![dest_part("/docs")];
    let outcome = upload_file(&mut files, &mut disk, &user, &fields, now_ts());
    match outcome {
        Err(Error::BadRequest(message)) => {
            assert_eq!(message, "Multipart missing \"file\" field.");
        },
        other => panic!("expected a bad request, got {:?}", other),
    }
}

#[test]
fn upload_empty_sanitized_filename_is_bad_request() {
    let mut files = FileStore::new();
    let mut disk = Disk::new();
    let user = User { id: 7 };
    let fields = vec![dest_part("/docs"), file_part(":*?", b"hello world")];
    let outcome = upload_file(&mut files, &mut disk, &user, &fields, now_ts());
    match outcome {
        Err(Error::BadRequest(message)) => {
            assert_eq!(message, "File name contained no characters once sanitized");
        },
        other => panic!("expected a bad request, got {:?}", other),
    }
    // No record was created under that name: the owner's listing is empty.
    let all = files.find_paged_files("", 7, "name", 100, 0);
    assert!(all.is_empty());
}

#[test]
fn upload_skips_unrecognized_fields() {
    let mut files = FileStore::new();
    let mut disk = Disk::new();
    let user = User { id: 7 };
    let mut stray = dest_part("/ignored");
    stray.name = String::from("comment");
    let fields = vec![stray, dest_part("/docs"), file_part("a.txt", b"x")];
    let id = upload_file(&mut files, &mut disk, &user, &fields, now_ts()).unwrap();
    assert_eq!(files.find_by_id(id).unwrap().name, "/docs/a.txt");
}

#[test]
fn download_of_another_owners_file_is_forbidden() {
    let mut files = FileStore::new();
    let mut disk = Disk::new();
    let owner = User { id: 7 };
    let stranger = User { id: 8 };
    let fields = vec![dest_part("/docs"), file_part("secret.txt", b"mine")];
    let id = upload_file(&mut files, &mut disk, &owner, &fields, now_ts()).unwrap();
    let outcome = download_file(&files, &disk, &stranger, id);
    assert!(matches!(outcome, Err(Error::Forbidden(_))));
}

#[test]
fn download_of_missing_record_is_not_found() {
    let files = FileStore::new();
    let disk = Disk::new();
    let user = User { id: 7 };
    let outcome = download_file(&files, &disk, &user, 999);
    assert!(matches!(outcome, Err(Error::NotFound(_))));
}

#[test]
fn download_of_folder_marker_is_bad_request() {
    let mut files = FileStore::new();
    let disk = Disk::new();
    let user = User { id: 7 };
    let id = files.create("/docs", None, 7, now_ts()).unwrap();
    let outcome = download_file(&files, &disk, &user, id);
    assert!(matches!(outcome, Err(Error::BadRequest(_))));
}

#[test]
fn folder_listing_returns_only_direct_children() {
    let mut files = FileStore::new();
    let mut disk = Disk::new();
    let user = User { id: 7 };
    let shallow = vec![dest_part("/docs"), file_part("a.txt", b"a")];
    let deep = vec![dest_part("/docs/sub"), file_part("b.txt", b"b")];
    let a_id = upload_file(&mut files, &mut disk, &user, &shallow, now_ts()).unwrap();
    let b_id = upload_file(&mut files, &mut disk, &user, &deep, now_ts()).unwrap();

    let query = SearchQuery { name: String::from("/docs") };
    let listing = find_files(&files, &user, &query);
    assert_eq!(listing.len(), 1);
    assert_eq!(listing[0].id, a_id);
    assert_eq!(listing[0].name, "/docs/a.txt");
    assert!(listing.iter().all(|f| f.id != b_id));
}

#[test]
fn folder_listing_is_owner_scoped_and_skips_deleted() {
    let mut files = FileStore::new();
    let mut disk = Disk::new();
    let mine = User { id: 7 };
    let theirs = User { id: 8 };
    let my_upload = vec![dest_part("/docs"), file_part("a.txt", b"a")];
    let their_upload = vec![dest_part("/docs"), file_part("c.txt", b"c")];
    let gone_upload = vec![dest_part("/docs"), file_part("old.txt", b"o")];
    upload_file(&mut files, &mut disk, &mine, &my_upload, now_ts()).unwrap();
    upload_file(&mut files, &mut disk, &theirs, &their_upload, now_ts()).unwrap();
    let gone = upload_file(&mut files, &mut disk, &mine, &gone_upload, now_ts()).unwrap();
    files.delete(gone, mine.id, now_ts());

    let query = SearchQuery { name: String::from("/docs") };
    let listing = find_files(&files, &mine, &query);
    assert_eq!(listing.len(), 1);
    assert_eq!(listing[0].name, "/docs/a.txt");
}

#[test]
fn empty_query_lists_root_children() {
    let mut files = FileStore::new();
    let mut disk = Disk::new();
    let user = User { id: 7 };
    let at_root = vec![dest_part("/"), file_part("top.txt", b"t")];
    let nested = vec![dest_part("/docs"), file_part("a.txt", b"a")];
    upload_file(&mut files, &mut disk, &user, &at_root, now_ts()).unwrap();
    upload_file(&mut files, &mut disk, &user, &nested, now_ts()).unwrap();

    let query = SearchQuery { name: String::from("   ") };
    let listing = find_files(&files, &user, &query);
    assert_eq!(listing.len(), 1);
    assert_eq!(listing[0].name, "/top.txt");
}

#[test]
fn get_folder_by_id_lists_its_children() {
    let mut files = FileStore::new();
    let mut disk = Disk::new();
    let user = User { id: 7 };
    let folder_id = files.create("/docs", None, 7, now_ts()).unwrap();
    let upload = vec![dest_part("/docs"), file_part("a.txt", b"a")];
    upload_file(&mut files, &mut disk, &user, &upload, now_ts()).unwrap();

    let listing = get_folder(&files, &user, folder_id).unwrap();
    assert_eq!(listing.len(), 1);
    assert_eq!(listing[0].name, "/docs/a.txt");

    assert!(matches!(get_folder(&files, &user, 999), Err(Error::NotFound(_))));

    let root_upload = vec![dest_part("/"), file_part("top.txt", b"t")];
    upload_file(&mut files, &mut disk, &user, &root_upload, now_ts()).unwrap();
    // The folder marker "/docs" and the uploaded "/top.txt" are both direct
    // children of the root.
    let root_listing = get_folder(&files, &user, 0).unwrap();
    assert_eq!(root_listing.len(), 2);
    assert!(root_listing.iter().any(|f| f.name == "/docs"));
    assert!(root_listing.iter().any(|f| f.name == "/top.txt"));
}

#[test]
fn paged_listing_clips_to_the_window() {
    let mut files = FileStore::new();
    let mut disk = Disk::new();
    let user = User { id: 7 };
    for name in ["a.txt", "b.txt", "c.txt"] {
        let upload = vec![dest_part("/docs"), file_part(name, b"x")];
        upload_file(&mut files, &mut disk, &user, &upload, now_ts()).unwrap();
    }
    let page = files.find_paged_files("/docs", 7, "name", 2, 1);
    assert_eq!(page.len(), 2);
    assert_eq!(page[0].name, "/docs/b.txt");
    assert_eq!(page[1].name, "/docs/c.txt");
    let beyond = files.find_paged_files("/docs", 7, "name", 100, 5);
    assert!(beyond.is_empty());
}

#[test]
fn config_roundtrip_and_unknown_field() {
    let mut users = UserStore::new();
    let mut configs = ConfigStore::new();
    let req = Credentials { login: String::from("algernon"), password: String::from("flowers") };
    let id = register(&mut users, &mut configs, &req).unwrap();
    let user = User { id };

    let fresh = get_config(&configs, &user).unwrap();
    assert!(fresh.ascending);
    assert!(fresh.created_at);
    assert!(!fresh.filtered);
    assert!(fresh.sorted.is_none());

    let update = ConfigUpdate { field: String::from("ascending"), value: false };
    put_config(&mut configs, &user, &update).unwrap();
    assert!(!get_config(&configs, &user).unwrap().ascending);

    let update = ConfigUpdate { field: String::from("filtered"), value: true };
    put_config(&mut configs, &user, &update).unwrap();
    assert!(get_config(&configs, &user).unwrap().filtered);

    let bad = ConfigUpdate { field: String::from("sideways"), value: true };
    match put_config(&mut configs, &user, &bad) {
        Err(Error::BadRequest(message)) => {
            assert_eq!(message, "Unrecognized config option: sideways");
        },
        other => panic!("expected a bad request, got {:?}", other),
    }
}

#[test]
fn combined_config_update_applies_each_given_field() {
    let mut configs = ConfigStore::new();
    configs.init(7).unwrap();
    configs.update_config(
        7,
        Some(String::from("created_at")),
        Some(false),
        None,
        Some(false),
        None,
        None,
        Some(true),
    );
    let cfg = configs.get(7).unwrap();
    assert_eq!(cfg.sorted.as_deref(), Some("created_at"));
    assert!(!cfg.ascending);
    assert!(cfg.created_at);
    assert!(!cfg.edited_at);
    assert!(cfg.filtered);

    // An empty sort key clears the stored one.
    configs.update_config(7, Some(String::new()), None, None, None, None, None, None);
    assert!(configs.get(7).unwrap().sorted.is_none());
}

#[test]
fn full_scenario_register_login_upload_download() {
    let mut users = UserStore::new();
    let mut configs = ConfigStore::new();
    let mut files = FileStore::new();
    let mut disk = Disk::new();
    let secret: Vec<u8> = "signing-secret".as_bytes().to_vec();

    let req = Credentials { login: String::from("algernon"), password: String::from("flowers") };
    register(&mut users, &mut configs, &req).unwrap();
    let ok = login(&users, &req, &secret, now_ts()).unwrap();

    let header = format!("Bearer {}", ok.access_token);
    let user = authenticate(Some(&header), &secret).unwrap();

    let fields = vec![dest_part("/docs"), file_part("test.txt", b"hello world")];
    let id = upload_file(&mut files, &mut disk, &user, &fields, now_ts()).unwrap();

    let body = download_file(&files, &disk, &user, id).unwrap();
    assert_eq!(body, b"hello world".to_vec());
}
