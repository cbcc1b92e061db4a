use argon2::password_hash::{PasswordHash, SaltString};
use argon2::Argon2;
use vstd::prelude::*;

verus! {

/// The PHC string of the Argon2 hash (default parameters) of a password with
/// a B64-encoded salt, or `None` where hashing refuses the salt or password.
pub uninterp spec fn argon2_phc(password: Seq<char>, salt: Seq<char>) -> Option<Seq<char>>;

/// Whether a password matches a PHC hash string.
pub uninterp spec fn phc_verifies(hash: Seq<char>, password: Seq<char>) -> bool;

/// Relies on password_hash's `SaltString::generate`, fed by rand's
/// `thread_rng`: 16 random bytes in canonical B64. Which bytes is not
/// promised; what is promised is that Argon2 with default parameters
/// accepts such a salt (16 bytes is above its minimum of 8), so hashing with
/// it succeeds for every password of at most `u32::MAX` bytes, which a
/// password of at most `0x3FFF_FFFF` characters is.
#[verifier::external_body]
pub(crate) fn fresh_salt() -> (r: String)
    ensures
        forall|p: Seq<char>| p.len() <= 0x3FFF_FFFF ==> (#[trigger] argon2_phc(p, r@)) is Some,
{
    SaltString::generate(rand::thread_rng()).as_str().to_owned()
}

/// Relies on password_hash's `PasswordHash::generate` with
/// `Argon2::default()`: hashes `password` with the B64 salt `salt` and
/// serializes the result as a PHC string. That string records algorithm,
/// version, parameters, salt and output, from which Argon2's verification
/// recomputes the same output, so the password verifies against it.
#[verifier::external_body]
pub(crate) fn hash_password(password: &str, salt: &str) -> (r: Option<String>)
    ensures
        r matches Some(h) ==> argon2_phc(password@, salt@) == Some(h@),
        r matches Some(h) ==> phc_verifies(h@, password@),
        r is None ==> argon2_phc(password@, salt@) is None,
{
    let salt = match SaltString::from_b64(salt) {
        Ok(s) => s,
        Err(_) => return None,
    };
    match PasswordHash::generate(Argon2::default(), password, &salt) {
        Ok(h) => Some(h.serialize().as_str().to_owned()),
        Err(_) => None,
    }
}

/// Relies on password_hash's `PasswordHash::new` (parses a PHC string) and
/// `PasswordHash::verify_password` with `Argon2::default()`: whether
/// `password` hashes to `hash` under the parameters and salt that `hash`
/// records. An unparsable `hash` matches no password.
#[verifier::external_body]
pub(crate) fn verify_password(hash: &str, password: &str) -> (r: bool)
    ensures
        r == phc_verifies(hash@, password@),
{
    match PasswordHash::new(hash) {
        Ok(parsed) => parsed.verify_password(&[&Argon2::default()], password).is_ok(),
        Err(_) => false,
    }
}

} // verus!
