use vstd::prelude::*;
use vstd::string::StrSliceExecFns;
use vstd::string::StringExecFns;

use argon2::PasswordHasher;
use argon2::PasswordVerifier;
use password_hash::Error as PhcError;

use crate::config::{default_config, ConfigStore};
use crate::error::Error;
use crate::jwt::{token_claims, validate, Claims};
use crate::strutil::starts_with_str;
use crate::users::{find_login, login_taken, UserStore, UserView};

verus! {

/// The authenticated caller of a request: the identity a validated token
/// asserts.
#[derive(Clone, Copy, PartialEq, Eq, Structural, Debug)]
pub struct User {
    pub id: u128,
}

/// The error type of the password hashing library, carried through the
/// trusted wrappers and mapped to the service taxonomy in verified code.
#[verifier::external_type_specification]
#[verifier::external_body]
pub struct ExPhcError(PhcError);

/// What verifying `password` against the PHC string `phc` decides: `None`
/// when the PHC string does not parse, otherwise whether the hash recomputed
/// from the parameters and salt in `phc` matches. A function of the two
/// strings alone.
pub uninterp spec fn phc_verify(password: Seq<char>, phc: Seq<char>) -> Option<bool>;

/// The password verifies against the PHC string.
pub open spec fn phc_matches(password: Seq<char>, phc: Seq<char>) -> bool {
    phc_verify(password, phc) == Some(true)
}

/// Hashes a password into a PHC string with a freshly generated random salt.
///
/// Relies on argon2's `PasswordHasher::hash_password`: whatever salt was
/// drawn, verifying the same password against the returned PHC string
/// recomputes the same hash, so the pair always verifies.
#[verifier::external_body]
pub fn hash_password(password: &str) -> (r: Result<String, PhcError>)
    ensures
        r is Ok ==> phc_matches(password@, r.unwrap()@),
{
    Ok(argon2::Argon2::default().hash_password(password.as_bytes())?.to_string())
}

/// Verifies a password against a stored PHC string.
///
/// Relies on argon2's `PasswordVerifier::verify_password`, which parses the
/// PHC string and recomputes the hash with the parameters and salt carried in
/// it: the outcome is a function of the password and the PHC string alone,
/// with a mismatch reported as `Ok(false)` and a PHC string that does not
/// parse as the parse error.
#[verifier::external_body]
pub fn verify_password(password: &str, phc: &str) -> (r: Result<bool, PhcError>)
    ensures
        r is Ok <==> phc_verify(password@, phc@) is Some,
        r is Ok ==> r.unwrap() == phc_verify(password@, phc@).unwrap(),
{
    match argon2::Argon2::default().verify_password(password.as_bytes(), phc) {
        Ok(()) => Ok(true),
        Err(PhcError::PasswordInvalid) => Ok(false),
        Err(e) => Err(e),
    }
}

/// Registers a fresh identity: hashes the password, creates the user row and
/// its preference row together, and returns the new identity id. Fails with
/// `Conflict` when the login is taken, and with `Internal` on a hashing or
/// storage failure; on failure nothing is created.
pub fn register_user(
    users: &mut UserStore,
    configs: &mut ConfigStore,
    login: &str,
    password: &str,
) -> (r: Result<u128, Error>)
    requires
        old(users).wf(),
        old(configs).wf(),
    ensures
        final(users).wf(),
        final(configs).wf(),
        r is Err ==> final(users)@ == old(users)@ && final(configs)@ == old(configs)@ && (
        r.unwrap_err() is Conflict || r.unwrap_err() is Internal),
        r is Err && r.unwrap_err() is Conflict ==> login_taken(old(users)@, login@),
        login_taken(old(users)@, login@) ==> r is Err,
        r is Ok ==> {
            &&& !login_taken(old(users)@, login@)
            &&& r.unwrap() == old(users).spec_next_id()
            &&& final(users)@.len() == old(users)@.len() + 1
            &&& final(users)@.drop_last() =~= old(users)@
            &&& final(users)@.last().id == r.unwrap()
            &&& final(users)@.last().login == login@
            &&& phc_matches(password@, final(users)@.last().phc)
            &&& final(configs)@ =~= old(configs)@.push(default_config(r.unwrap()))
        },
{
    let phc = match hash_password(password) {
        Ok(p) => p,
        Err(_) => {
            return Err(Error::Internal(String::from_str("Password hashing failed")));
        },
    };
    let next = users.peek_next_id();
    if configs.get(next).is_ok() {
        return Err(Error::Internal(String::from_str("Preference row already present")));
    }
    let id = match users.create(login, phc.as_str()) {
        Ok(id) => id,
        Err(e) => {
            return Err(e);
        },
    };
    match configs.init(id) {
        Ok(()) => (),
        Err(e) => {
            return Err(e);
        },
    }
    proof {
        assert(final(users)@.drop_last() =~= old(users)@);
    }
    Ok(id)
}

/// Logs an identity in: looks the login up and verifies the password against
/// the stored hash. An unknown login and a wrong password both fail with
/// `Unauthorized` (deliberately indistinguishable to the caller); a hash that
/// cannot be checked is an internal failure.
pub fn login_user(users: &UserStore, login: &str, password: &str) -> (r: Result<u128, Error>)
    ensures
        r is Ok ==> {
            &&& find_login(users@, login@) is Some
            &&& r.unwrap() == find_login(users@, login@).unwrap().id
            &&& phc_matches(password@, find_login(users@, login@).unwrap().phc)
        },
        r is Err ==> (r.unwrap_err() is Unauthorized || r.unwrap_err() is Internal),
        find_login(users@, login@) is None ==> r is Err && r.unwrap_err() is Unauthorized,
        find_login(users@, login@) is Some && phc_matches(
            password@,
            find_login(users@, login@).unwrap().phc,
        ) ==> r is Ok,
        find_login(users@, login@) is Some && phc_verify(
            password@,
            find_login(users@, login@).unwrap().phc,
        ) == Some(false) ==> r is Err && r.unwrap_err() is Unauthorized,
        find_login(users@, login@) is Some && phc_verify(
            password@,
            find_login(users@, login@).unwrap().phc,
        ) is None ==> r is Err && r.unwrap_err() is Internal,
{
    let user = match users.find_by_login(login) {
        Some(u) => u,
        None => {
            return Err(Error::Unauthorized(String::from_str("Invalid login")));
        },
    };
    match verify_password(password, user.phc.as_str()) {
        Ok(true) => Ok(user.id),
        Ok(false) => Err(Error::Unauthorized(String::from_str("Invalid credentials"))),
        Err(_) => Err(Error::Internal(String::from_str("Password verification failed"))),
    }
}

/// The characters every bearer authorization header starts with.
pub open spec fn bearer_prefix() -> Seq<char> {
    seq!['B', 'e', 'a', 'r', 'e', 'r', ' ']
}

/// A header value carrying a bearer token.
pub open spec fn is_bearer(h: Seq<char>) -> bool {
    h.len() >= 7 && h.subrange(0, 7) == bearer_prefix()
}

/// The token part of a bearer header value.
pub open spec fn bearer_token(h: Seq<char>) -> Seq<char> {
    h.skip(7)
}

/// Turns the authorization header of a request into the authenticated caller:
/// the header must be present, carry a bearer token, and the token must
/// validate under the signing secret. Every failure is `Unauthorized`, and a
/// success asserts the subject of claims the token validates to.
pub fn authenticate(header: Option<&str>, secret: &Vec<u8>) -> (r: Result<User, Error>)
    ensures
        r is Err ==> r.unwrap_err() is Unauthorized,
        header is None ==> r is Err,
        r is Ok ==> header is Some && is_bearer(header.unwrap()@),
        r is Ok ==> exists|c: Claims|
            #[trigger] token_claims(bearer_token(header.unwrap()@), secret@, c) && c.sub
                == r.unwrap().id,
{
    let h = match header {
        Some(h) => h,
        None => {
            return Err(Error::Unauthorized(String::from_str("Missing authorization header")));
        },
    };
    if !starts_with_str(h, "Bearer ") {
        return Err(Error::Unauthorized(String::from_str("Malformed authorization header")));
    }
    proof {
        reveal_strlit("Bearer ");
        assert("Bearer "@ =~= bearer_prefix());
    }
    let len = h.unicode_len();
    let token = h.substring_char(7, len);
    proof {
        assert(token@ =~= bearer_token(h@));
    }
    match validate(token, secret) {
        Ok(claims) => {
            let user = User { id: claims.sub };
            proof {
                assert(token_claims(bearer_token(h@), secret@, claims) && claims.sub == user.id);
            }
            Ok(user)
        },
        Err(e) => Err(e),
    }
}

/// Appending a user whose login was free makes that user the one a login
/// lookup finds.
pub proof fn lemma_find_login_push(s: Seq<UserView>, u: UserView)
    requires
        !login_taken(s, u.login),
    ensures
        find_login(s.push(u), u.login) == Some(u),
    decreases s.len(),
{
    if s.len() == 0 {
        assert(s.push(u)[0] == u);
    } else {
        assert(s.push(u)[0] == s[0]);
        assert(s.push(u).drop_first() =~= s.drop_first().push(u));
        lemma_find_login_push(s.drop_first(), u);
    }
}

/// Logging in right after registering: with the login previously free, the
/// login lookup finds exactly the user registration created, and the
/// password that was registered is owed to verify against the stored hash.
pub proof fn lemma_login_after_register(before: Seq<UserView>, u: UserView, password: Seq<char>)
    ensures
        !login_taken(before, u.login) && phc_matches(password, u.phc) ==> find_login(
            before.push(u),
            u.login,
        ) == Some(u) && phc_verify(password, u.phc) == Some(true),
{
    if !login_taken(before, u.login) {
        lemma_find_login_push(before, u);
    }
}

} // verus!
