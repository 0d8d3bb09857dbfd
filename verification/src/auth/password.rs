//! Password hashes.

use vstd::prelude::*;

use crate::text::same_bytes;

verus! {

/// Error type of a hash that cannot be computed: what `argon2` says of the reason.
#[derive(Clone, Debug, PartialEq, Eq)]
pub struct PasswordError(pub String);

/// The Argon2 hash of a password with a salt, under the default configuration of `argon2`,
/// or `None` where `argon2` refuses the two.
pub uninterp spec fn spec_password_hash(password: Seq<u8>, salt: Seq<u8>) -> Option<Seq<u8>>;

/// Thirty-two random bytes.
///
/// Trusted: `OsRng` of `rand`, the random number generator of the operating system. Nothing
/// is claimed of the bytes.
#[verifier::external_body]
pub fn generate_salt() -> (r: [u8; 32]) {
    ::rand::Rng::gen(&mut ::rand::rngs::OsRng)
}

/// The hash of a password with a salt.
///
/// Trusted: `argon2::hash_raw` with `Config::default()`. Its result depends on the password
/// and the salt alone and is named `spec_password_hash`. Of an error of `argon2` the message
/// is kept.
#[verifier::external_body]
fn argon2_hash_raw(password: &[u8], salt: &[u8]) -> (r: Result<Vec<u8>, PasswordError>)
    ensures
        match r {
            Ok(hash) => spec_password_hash(password@, salt@) == Some(hash@),
            Err(_) => spec_password_hash(password@, salt@) is None,
        },
{
    match ::argon2::hash_raw(password, salt, &::argon2::Config::default()) {
        Ok(hash) => Ok(hash),
        Err(e) => Err(PasswordError(format!("{}", e))),
    }
}

/// Hashes a password with a salt.
pub fn password_hash(password: &[u8], salt: &[u8]) -> (r: Result<Vec<u8>, PasswordError>)
    ensures
        match r {
            Ok(hash) => spec_password_hash(password@, salt@) == Some(hash@),
            Err(_) => spec_password_hash(password@, salt@) is None,
        },
{
    argon2_hash_raw(password, salt)
}

/// Whether `hash` is the hash of the password with the salt. Fails where the hash of the two
/// cannot be computed.
pub fn password_verify(password: &[u8], salt: &[u8], hash: &[u8]) -> (r: Result<
    bool,
    PasswordError,
>)
    ensures
        match spec_password_hash(password@, salt@) {
            Some(computed) => r matches Ok(same) && same == (computed == hash@),
            None => r is Err,
        },
{
    let computed = password_hash(password, salt)?;
    Ok(same_bytes(hash, computed.as_slice()))
}

} // verus!
