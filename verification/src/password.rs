use vstd::prelude::*;

verus! {

/// Cost of the bcrypt hashes of MQTT device passwords.
pub const MQTT_PASSWORD_BCRYPT_COST: u32 = 10;

/// Cost of the bcrypt hashes of administrator passwords (bcrypt's default).
pub const ADMIN_PASSWORD_BCRYPT_COST: u32 = 12;

/// The decimal digit of a number below ten.
pub open spec fn decimal_digit(d: u32) -> char {
    if d == 0 { '0' } else if d == 1 { '1' } else if d == 2 { '2' } else if d == 3 { '3' }
    else if d == 4 { '4' } else if d == 5 { '5' } else if d == 6 { '6' } else if d == 7 { '7' }
    else if d == 8 { '8' } else { '9' }
}

/// The first seven characters of a bcrypt hash that `bcrypt::hash` writes
/// with this cost: `$2b$`, the cost on two decimal digits, `$`.
pub open spec fn bcrypt_prefix(cost: u32) -> Seq<char> {
    seq!['$', '2', 'b', '$', decimal_digit(cost / 10), decimal_digit(cost % 10), '$']
}

/// What `bcrypt::verify(password, hash)` returns: `Some(ok)` for `Ok(ok)`,
/// `None` for an error.
pub uninterp spec fn bcrypt_verify_result(password: Seq<char>, hash: Seq<char>) -> Option<bool>;

/// Calls `bcrypt::verify`, which parses the hash, recomputes it from the
/// password with the hash's own cost and salt, and compares. Claimed: the
/// result is `bcrypt_verify_result` of the two strings, and a hash that is
/// not 60 characters long is refused with an error.
#[verifier::external_body]
fn bcrypt_verify(password: &str, hash: &str) -> (r: Option<bool>)
    ensures
        r == bcrypt_verify_result(password@, hash@),
        hash@.len() != 60 ==> r is None,
{
    match bcrypt::verify(password, hash) {
        Ok(ok) => Some(ok),
        Err(_) => None,
    }
}

/// Calls `bcrypt::hash`, which draws a random salt and formats a 60
/// character hash in version `2b`. Claimed: a cost outside 4..=31 is
/// refused, a hash that comes back starts with `$2b$`, the cost on two
/// digits and `$`, and it is one that `bcrypt::verify` accepts for the same
/// password. Which salt was drawn is not stated, and success is not claimed
/// for a cost in range: the salt comes from the operating system's random
/// source (`getrandom`), which may fail.
#[verifier::external_body]
fn bcrypt_hash(password: &str, cost: u32) -> (r: Option<String>)
    ensures
        (cost < 4 || cost > 31) ==> r is None,
        r matches Some(h) ==> h@.len() == 60 && h@.take(7) == bcrypt_prefix(cost)
            && bcrypt_verify_result(password@, h@) == Some(true),
{
    match bcrypt::hash(password, cost) {
        Ok(h) => Some(h),
        Err(_) => None,
    }
}

/// Whether the password matches the stored bcrypt hash; a malformed hash
/// counts as a mismatch.
pub fn verify_password(password: &str, hash: &str) -> (ok: bool)
    ensures
        ok == (bcrypt_verify_result(password@, hash@) == Some(true)),
        hash@.len() != 60 ==> !ok,
{
    match bcrypt_verify(password, hash) {
        Some(b) => b,
        None => false,
    }
}

/// Hashes an MQTT device password with `MQTT_PASSWORD_BCRYPT_COST`; `None`
/// when hashing failed (the cost is in range, so only when no random salt
/// could be drawn).
pub fn hash_mqtt_password(password: &str) -> (r: Option<String>)
    ensures
        r matches Some(h) ==> h@.len() == 60 && h@.take(7) == seq!['$', '2', 'b', '$', '1', '0', '$']
            && bcrypt_verify_result(password@, h@) == Some(true),
{
    bcrypt_hash(password, MQTT_PASSWORD_BCRYPT_COST)
}

/// Hashes an administrator password with `ADMIN_PASSWORD_BCRYPT_COST`;
/// `None` when hashing failed (the cost is in range, so only when no random
/// salt could be drawn).
pub fn hash_admin_password(password: &str) -> (r: Option<String>)
    ensures
        r matches Some(h) ==> h@.len() == 60 && h@.take(7) == seq!['$', '2', 'b', '$', '1', '2', '$']
            && bcrypt_verify_result(password@, h@) == Some(true),
{
    bcrypt_hash(password, ADMIN_PASSWORD_BCRYPT_COST)
}

/// The hash to store when an account update carries a password: `Ok(None)`
/// when no password or an empty one was given (the stored hash stays),
/// `Ok(Some(hash))` with a fresh hash otherwise, `Err(())` when hashing failed.
pub fn new_password_hash(password: Option<&str>) -> (r: Result<Option<String>, ()>)
    ensures
        match password {
            None => r == Ok::<Option<String>, ()>(None),
            Some(p) => if p@.len() == 0 {
                r == Ok::<Option<String>, ()>(None)
            } else {
                match r {
                    Ok(Some(h)) => h@.len() == 60 && h@.take(7) == seq!['$', '2', 'b', '$', '1', '0', '$']
                        && bcrypt_verify_result(p@, h@) == Some(true),
                    Ok(None) => false,
                    Err(_) => true,
                }
            },
        },
{
    match password {
        None => Ok(None),
        Some(p) => {
            let chars = crate::text::chars_of(p);
            if chars.len() == 0 {
                Ok(None)
            } else {
                match hash_mqtt_password(p) {
                    Some(h) => Ok(Some(h)),
                    None => Err(()),
                }
            }
        },
    }
}

} // verus!
