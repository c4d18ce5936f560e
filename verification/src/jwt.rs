use vstd::prelude::*;
use vstd::string::StringExecFns;

use crate::error::Error;

verus! {

/// The payload of an identity token: the subject identity, the issue time
/// and the expiry time (both as seconds since the epoch).
#[derive(Clone, Copy, PartialEq, Eq, Structural, Debug)]
pub struct Claims {
    pub sub: u128,
    pub iat: i64,
    pub exp: i64,
}

/// The signed token that encoding the given claims under the given secret
/// produces. The result depends on the claims and the secret alone.
pub uninterp spec fn token_of(sub: u128, iat: i64, exp: i64, secret: Seq<u8>) -> Seq<char>;

/// What a successful decode tells us about the claims it returned: if the
/// token is the encoding of some claims under this secret, the returned
/// claims are exactly those.
pub open spec fn token_claims(token: Seq<char>, secret: Seq<u8>, c: Claims) -> bool {
    forall|s: u128, i: i64, e: i64|
        token == #[trigger] token_of(s, i, e, secret) ==> c == (Claims { sub: s, iat: i, exp: e })
}

/// Relies on `jsonwebtoken::encode` with the default HS256 header: the token
/// is a deterministic function of the claims and the secret. For an HS256
/// header, a secret-bytes key and plain JSON claims no step of `encode` can
/// fail (the algorithm families match, serializing a JSON value is
/// infallible, and HMAC accepts any key length), so the call always returns
/// a token.
#[verifier::external_body]
fn encode_token(claims: &Claims, secret: &Vec<u8>) -> (r: String)
    ensures
        r@ == token_of(claims.sub, claims.iat, claims.exp, secret@),
{
    let mut m = serde_json::Map::new();
    let sub = uuid::Uuid::from_u128(claims.sub).to_string();
    m.insert(String::from("sub"), serde_json::Value::String(sub));
    m.insert(String::from("iat"), serde_json::Value::Number(claims.iat.into()));
    m.insert(String::from("exp"), serde_json::Value::Number(claims.exp.into()));
    let key = jsonwebtoken::EncodingKey::from_secret(secret.as_slice());
    jsonwebtoken::encode(&jsonwebtoken::Header::default(), &serde_json::Value::Object(m), &key)
        .expect("HS256 encoding of plain JSON claims cannot fail")
}

/// Relies on `jsonwebtoken::decode` with the default validation: only a token
/// whose HS256 signature verifies under the secret decodes, so a token that
/// is the encoding of some claims decodes to exactly those claims. Expiry is
/// checked against the clock, so nothing is promised about when decoding
/// succeeds.
#[verifier::external_body]
fn decode_token(token: &str, secret: &Vec<u8>) -> (r: Option<Claims>)
    ensures
        r is Some ==> token_claims(token@, secret@, r.unwrap()),
{
    let key = jsonwebtoken::DecodingKey::from_secret(secret.as_slice());
    let validation = jsonwebtoken::Validation::default();
    let data = jsonwebtoken::decode::<serde_json::Value>(token, &key, &validation).ok()?;
    let sub = uuid::Uuid::parse_str(data.claims.get("sub")?.as_str()?).ok()?.as_u128();
    let iat = data.claims.get("iat")?.as_i64()?;
    let exp = data.claims.get("exp")?.as_i64()?;
    Some(Claims { sub, iat, exp })
}

/// Relies on `chrono::Utc::now` for the current time. `now` panics rather
/// than return a value when the system clock lies before the Unix epoch or
/// past chrono's maximum date (around the year 262143), so every timestamp it
/// does return is nonnegative and well below 10^13 seconds.
#[verifier::external_body]
pub fn now_ts() -> (r: i64)
    ensures
        0 <= r < 10_000_000_000_000i64,
{
    chrono::Utc::now().timestamp()
}

/// Issues a token for `user_id` as of the given instant, valid for
/// `ttl_secs` seconds: success exactly when the expiry instant fits in the
/// timestamp range.
pub fn issue_at(user_id: u128, now: i64, ttl_secs: i64, secret: &Vec<u8>) -> (r: Result<
    String,
    Error,
>)
    requires
        ttl_secs >= 0,
    ensures
        r is Ok <==> now + ttl_secs <= i64::MAX,
        r is Ok ==> r.unwrap()@ == token_of(user_id, now, (now + ttl_secs) as i64, secret@),
        r is Err ==> r.unwrap_err() is Internal,
{
    if now > i64::MAX - ttl_secs {
        return Err(Error::Internal(String::from_str("Token expiry out of range")));
    }
    let claims = Claims { sub: user_id, iat: now, exp: now + ttl_secs };
    Ok(encode_token(&claims, secret))
}

/// Issues a token for `user_id` valid for `ttl_secs` seconds from now. The
/// clock's timestamps stay far below the integer range, so any lifetime short
/// of overflowing it from there is owed a token.
pub fn issue(user_id: u128, secret: &Vec<u8>, ttl_secs: i64) -> (r: Result<String, Error>)
    requires
        ttl_secs >= 0,
    ensures
        ttl_secs <= i64::MAX - 10_000_000_000_000i64 ==> r is Ok,
        r is Ok ==> exists|now: i64, e: i64|
            e - now == ttl_secs && 0 <= now && r.unwrap()@ == #[trigger] token_of(
                user_id,
                now,
                e,
                secret@,
            ),
        r is Err ==> r.unwrap_err() is Internal,
{
    let now = now_ts();
    let r = issue_at(user_id, now, ttl_secs, secret);
    proof {
        if r is Ok {
            assert(r.unwrap()@ == token_of(user_id, now, (now + ttl_secs) as i64, secret@));
        }
    }
    r
}

/// Validates a token against the secret: the claims come back whenever the
/// token's signature verifies and it has not expired, and any token that was
/// encoded under this secret validates to the claims it was built from.
pub fn validate(token: &str, secret: &Vec<u8>) -> (r: Result<Claims, Error>)
    ensures
        r is Ok ==> token_claims(token@, secret@, r.unwrap()),
        r is Err ==> r.unwrap_err() is Unauthorized,
{
    match decode_token(token, secret) {
        Some(c) => Ok(c),
        None => Err(Error::Unauthorized(String::from_str("Invalid or expired token"))),
    }
}

/// A token issued for an identity validates, whenever validation accepts it,
/// to exactly that identity's claims: the subject cannot change between
/// issuing and validating.
pub proof fn lemma_issued_token_validates(
    token: Seq<char>,
    secret: Seq<u8>,
    sub: u128,
    iat: i64,
    exp: i64,
    c: Claims,
)
    ensures
        token == token_of(sub, iat, exp, secret) && token_claims(token, secret, c) ==> c == (Claims {
            sub,
            iat,
            exp,
        }),
{
}

} // verus!
