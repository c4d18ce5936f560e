use storage::api::{login, register, Credentials, TOKEN_TTL_SECS};
use storage::auth::{authenticate, hash_password, login_user, register_user, verify_password};
use storage::config::ConfigStore;
use storage::jwt::{issue, issue_at, now_ts, validate};
use storage::users::UserStore;
use storage::Error;

#[test]
fn password_roundtrip() {
    let password = "avada kedavra";
    let phc = hash_password(password).unwrap();

    assert!(verify_password(password, &phc).unwrap());
    assert!(!verify_password("wrong", &phc).unwrap());
}

#[test]
fn jwt_roundtrip() {
    let secret: Vec<u8> = "secret".as_bytes().to_vec();
    let id: u128 = 0x331194d0_3c87_42ed_aab0_bac0fc637063;
    let token = issue(id, &secret, 30 * 60).unwrap();
    let claims = validate(&token, &secret).unwrap();
    assert_eq!(claims.sub, id);
}

#[test]
fn register_success() {
    let mut users = UserStore::new();
    let mut configs = ConfigStore::new();
    let id = register_user(&mut users, &mut configs, "algernon", "flowers").unwrap();
    assert_eq!(id, 1);
}

#[test]
fn login_success() {
    let mut users = UserStore::new();
    let mut configs = ConfigStore::new();
    let registered = register_user(&mut users, &mut configs, "algernon", "flowers").unwrap();
    let logged_in = login_user(&users, "algernon", "flowers").unwrap();
    assert_eq!(registered, logged_in);
}

#[test]
fn login_fail() {
    let mut users = UserStore::new();
    let mut configs = ConfigStore::new();
    register_user(&mut users, &mut configs, "algernon", "flowers").unwrap();
    let outcome = login_user(&users, "algernon", "other");
    assert!(matches!(outcome, Err(Error::Unauthorized(_))));
}

#[test]
fn register_conflict_on_taken_login() {
    let mut users = UserStore::new();
    let mut configs = ConfigStore::new();
    register_user(&mut users, &mut configs, "algernon", "flowers").unwrap();
    let second = register_user(&mut users, &mut configs, "algernon", "petals");
    match second {
        Err(Error::Conflict(message)) => {
            assert_eq!(message, "A user with such login already exists.");
        },
        other => panic!("expected a conflict, got {:?}", other),
    }
}

#[test]
fn login_unknown_user_fails() {
    let users = UserStore::new();
    let outcome = login_user(&users, "nobody", "anything");
    assert!(matches!(outcome, Err(Error::Unauthorized(_))));
}

#[test]
fn login_handler_issues_validatable_token() {
    let mut users = UserStore::new();
    let mut configs = ConfigStore::new();
    let req = Credentials { login: String::from("algernon"), password: String::from("flowers") };
    let id = register(&mut users, &mut configs, &req).unwrap();
    let secret: Vec<u8> = "signing-secret".as_bytes().to_vec();
    let ok = login(&users, &req, &secret, now_ts()).unwrap();
    let claims = validate(&ok.access_token, &secret).unwrap();
    assert_eq!(claims.sub, id);
}

#[test]
fn token_with_altered_signature_fails() {
    let secret: Vec<u8> = "secret".as_bytes().to_vec();
    let token = issue(7, &secret, TOKEN_TTL_SECS).unwrap();
    let mut tampered = token.clone();
    let last = tampered.pop().unwrap();
    tampered.push(if last == 'A' { 'B' } else { 'A' });
    assert!(validate(&tampered, &secret).is_err());

    let other_secret: Vec<u8> = "other".as_bytes().to_vec();
    assert!(validate(&token, &other_secret).is_err());
}

#[test]
fn expired_token_fails() {
    let secret: Vec<u8> = "secret".as_bytes().to_vec();
    // Issued at the epoch with a one-second lifetime: long past its expiry.
    let token = issue_at(7, 0, 1, &secret).unwrap();
    assert!(validate(&token, &secret).is_err());
}

#[test]
fn authenticate_bearer_header() {
    let secret: Vec<u8> = "secret".as_bytes().to_vec();
    let token = issue(42, &secret, TOKEN_TTL_SECS).unwrap();
    let header = format!("Bearer {}", token);
    let user = authenticate(Some(&header), &secret).unwrap();
    assert_eq!(user.id, 42);
}

#[test]
fn authenticate_rejects_missing_and_malformed_headers() {
    let secret: Vec<u8> = "secret".as_bytes().to_vec();
    assert!(matches!(authenticate(None, &secret), Err(Error::Unauthorized(_))));
    assert!(matches!(authenticate(Some("Basic abc"), &secret), Err(Error::Unauthorized(_))));
    assert!(matches!(authenticate(Some("Bearer not-a-token"), &secret), Err(Error::Unauthorized(_))));
}
