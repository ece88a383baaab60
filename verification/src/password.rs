//! One-way password hashing and verification against the stored,
//! legacy-prefixed hash format.
//!
//! Stored hashes may carry the literal `{bcrypt}` tag in front of the
//! bcrypt hash proper, for storage-format interoperability with the
//! other services that share the database; the tag is stripped before
//! comparison and re-attached to freshly produced hashes.

use vstd::prelude::*;

use crate::text::all_spaces;
use crate::text::is_blank;

verus! {

/// Outcome of `bcrypt::verify` on a password and a bare (untagged)
/// stored hash: `Some(b)` when the hash parses and the comparison
/// completes with result `b`, `None` when the hash is malformed.
/// The outcome is a function of the two strings alone.
pub uninterp spec fn bcrypt_check_of(raw: Seq<char>, hashed: Seq<char>) -> Option<bool>;

/// A password check failed before any comparison took place: the
/// stored hash is not in the expected format.
#[derive(Debug, Clone, Copy, PartialEq, Eq, Structural)]
pub enum VerifyError {
    /// The stored hash could not be parsed as a bcrypt hash.
    InvalidHash,
}

/// Producing a fresh hash failed.
#[derive(Debug, Clone, Copy, PartialEq, Eq, Structural)]
pub enum HashError {
    /// The password to hash was empty or whitespace-only.
    EmptyPassword,
    /// The hashing routine itself failed (it draws its salt from the
    /// operating system).
    HashingFailed,
}

/// The legacy tag that stored hashes may carry in front of the bcrypt
/// hash proper.
pub open spec fn bcrypt_tag() -> Seq<char> {
    seq!['{', 'b', 'c', 'r', 'y', 'p', 't', '}']
}

/// The stored hash with its optional legacy tag removed.
pub open spec fn strip_tag_spec(s: Seq<char>) -> Seq<char> {
    if s.len() >= 8 && s.take(8) == bcrypt_tag() {
        s.skip(8)
    } else {
        s
    }
}

/// What password verification returns, as a function of the submitted
/// password and the stored hash: an empty stored hash always checks
/// `false`; otherwise the tag is stripped and the bcrypt comparison
/// decides, a malformed hash being a genuine error rather than a
/// mismatch.
pub open spec fn verify_spec(raw: Seq<char>, encoded: Seq<char>) -> Result<bool, VerifyError> {
    if encoded.len() == 0 {
        Ok(false)
    } else {
        match bcrypt_check_of(raw, strip_tag_spec(encoded)) {
            Some(b) => Ok(b),
            None => Err(VerifyError::InvalidHash),
        }
    }
}

/// Relies on `bcrypt::verify`: it parses the stored hash, recomputes
/// the bcrypt digest of the password with the cost and salt taken from
/// the hash, and reports whether the digests agree; a hash that does
/// not parse is reported as an error. The outcome depends on the two
/// arguments alone.
#[verifier::external_body]
fn bcrypt_verify_call(raw: &str, hashed: &str) -> (r: Option<bool>)
    ensures
        r == bcrypt_check_of(raw@, hashed@),
{
    match bcrypt::verify(raw, hashed) {
        Ok(b) => Some(b),
        Err(_) => None,
    }
}

/// Relies on `bcrypt::hash` with the crate's default cost: on success
/// the result is a sixty-character hash string that `bcrypt::verify`
/// accepts against the same password; it fails only when the operating
/// system cannot supply random salt bytes.
#[verifier::external_body]
fn bcrypt_hash_call(raw: &str) -> (r: Option<String>)
    ensures
        r matches Some(h) ==> bcrypt_check_of(raw@, h@) == Some(true),
        r matches Some(h) ==> h@.len() == 60,
{
    bcrypt::hash(raw, bcrypt::DEFAULT_COST).ok()
}

/// Checks a submitted plaintext password against a stored hash.
///
/// Every implementation reports an empty stored hash as a clean
/// mismatch, never as an error.
pub trait PasswordVerifier {
    /// Whether `raw` matches the stored `encoded` hash.
    fn verify(&self, raw: &str, encoded: &str) -> (r: Result<bool, VerifyError>)
        ensures
            encoded@.len() == 0 ==> r == Ok::<bool, VerifyError>(false),
    ;
}

/// The production password verifier, backed by bcrypt.
#[derive(Clone, Copy)]
pub struct BcryptVerifier;

impl BcryptVerifier {
    /// A new bcrypt-backed verifier; it holds no state.
    pub fn new() -> (r: Self) {
        BcryptVerifier
    }

    /// Strip the optional legacy tag off a stored hash.
    fn strip_tag<'a>(&self, encoded: &'a str) -> (r: &'a str)
        ensures
            r@ == strip_tag_spec(encoded@),
    {
        let n = encoded.unicode_len();
        if n >= 8 && encoded.get_char(0) == '{' && encoded.get_char(1) == 'b' && encoded.get_char(
            2,
        ) == 'c' && encoded.get_char(3) == 'r' && encoded.get_char(4) == 'y' && encoded.get_char(
            5,
        ) == 'p' && encoded.get_char(6) == 't' && encoded.get_char(7) == '}' {
            proof {
                assert(encoded@.take(8) =~= bcrypt_tag());
            }
            encoded.substring_char(8, n)
        } else {
            proof {
                if encoded@.len() >= 8 && encoded@.take(8) == bcrypt_tag() {
                    assert(encoded@[0] == encoded@.take(8)[0]);
                    assert(encoded@[1] == encoded@.take(8)[1]);
                    assert(encoded@[2] == encoded@.take(8)[2]);
                    assert(encoded@[3] == encoded@.take(8)[3]);
                    assert(encoded@[4] == encoded@.take(8)[4]);
                    assert(encoded@[5] == encoded@.take(8)[5]);
                    assert(encoded@[6] == encoded@.take(8)[6]);
                    assert(encoded@[7] == encoded@.take(8)[7]);
                }
            }
            encoded
        }
    }

    /// Check a password against a stored hash, with the exact outcome
    /// pinned by [`verify_spec`].
    pub fn check(&self, raw: &str, encoded: &str) -> (r: Result<bool, VerifyError>)
        ensures
            r == verify_spec(raw@, encoded@),
    {
        if encoded.unicode_len() == 0 {
            return Ok(false);
        }
        let bare = self.strip_tag(encoded);
        match bcrypt_verify_call(raw, bare) {
            Some(b) => Ok(b),
            None => Err(VerifyError::InvalidHash),
        }
    }
}

impl PasswordVerifier for BcryptVerifier {
    fn verify(&self, raw: &str, encoded: &str) -> (r: Result<bool, VerifyError>)
        ensures
            r == verify_spec(raw@, encoded@),
    {
        self.check(raw, encoded)
    }
}

/// A check-double for tests and wiring exercises: accepts exactly the
/// password equal to the stored string. Not for production use.
#[derive(Clone, Copy)]
pub struct EqualityVerifier;

impl PasswordVerifier for EqualityVerifier {
    fn verify(&self, raw: &str, encoded: &str) -> (r: Result<bool, VerifyError>)
        ensures
            r == Ok::<bool, VerifyError>(raw@ == encoded@ && encoded@.len() > 0),
    {
        let same = crate::text::str_eq(raw, encoded);
        Ok(same && encoded.unicode_len() > 0)
    }
}

/// Hash a fresh password for storage: the result carries the legacy
/// tag, and verifying the same password against it succeeds. An empty
/// or whitespace-only password is rejected.
pub fn bcrypt_hash(raw: &str) -> (r: Result<String, HashError>)
    ensures
        all_spaces(raw@) <==> r == Err::<String, HashError>(HashError::EmptyPassword),
        r matches Ok(t) ==> verify_spec(raw@, t@) == Ok::<bool, VerifyError>(true),
        r matches Ok(t) ==> t@.len() == 68 && t@.take(8) == bcrypt_tag(),
{
    if is_blank(raw) {
        return Err(HashError::EmptyPassword);
    }
    match bcrypt_hash_call(raw) {
        Some(h) => {
            let mut tagged = String::new();
            tagged.append("{bcrypt}");
            tagged.append(h.as_str());
            proof {
                reveal_strlit("{bcrypt}");
                assert(("{bcrypt}")@ =~= bcrypt_tag());
                assert(tagged@.take(8) =~= bcrypt_tag());
                assert(tagged@.skip(8) =~= h@);
                assert(strip_tag_spec(tagged@) == h@);
            }
            Ok(tagged)
        },
        None => Err(HashError::HashingFailed),
    }
}

} // verus!
