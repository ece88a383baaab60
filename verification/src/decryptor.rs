//! Asymmetric decryption of the transport-encrypted credential.
//!
//! The decryptor is built once from a base64-encoded PKCS#8 private
//! key and then decrypts base64-encoded ciphertexts with PKCS#1 v1.5
//! padding — the scheme the encrypting peer uses, kept for wire
//! compatibility. A failed decode and a failed decryption are reported
//! as the same opaque [`DecryptError`], so that nothing tells a caller
//! why decryption failed.

use vstd::prelude::*;

use crate::text::trim_spec;
use crate::text::trim_str;

verus! {

/// Decryption failed: the ciphertext was not valid base64, or did not
/// decrypt under the key, or the plaintext was not text. The one kind
/// deliberately covers them all.
#[derive(Debug, Clone, Copy, PartialEq, Eq, Structural)]
pub struct DecryptError;

/// Construction of the decryptor failed.
#[derive(Debug, Clone, Copy, PartialEq, Eq, Structural)]
pub enum KeyError {
    /// The configured key string is empty or whitespace-only.
    EmptyKey,
    /// The key string is not valid base64.
    BadBase64,
    /// The decoded bytes are not a parseable PKCS#8 private key.
    BadKey,
}

#[verifier::external_type_specification]
#[verifier::external_body]
pub struct ExRsaPrivateKey(rsa::RsaPrivateKey);

/// The base64 (standard alphabet, padded) decoding of a string:
/// `None` when the string is not a valid encoding.
pub uninterp spec fn b64_std_decode_of(s: Seq<char>) -> Option<Seq<u8>>;

/// Whether a DER blob parses as a PKCS#8 RSA private key.
pub uninterp spec fn pkcs8_key_parses(der: Seq<u8>) -> bool;

/// What decrypting a ciphertext under the private key parsed from the
/// given DER bytes returns: `None` on any cryptographic failure.
pub uninterp spec fn rsa_decrypt_of(der: Seq<u8>, cipher: Seq<u8>) -> Option<Seq<u8>>;

/// Relies on the base64 crate's `STANDARD` engine: decoding is a
/// function of the input alone, and fails exactly on strings that are
/// no valid padded encoding.
#[verifier::external_body]
fn b64_std_decode(s: &str) -> (r: Option<Vec<u8>>)
    ensures
        r matches Some(b) ==> b64_std_decode_of(s@) == Some(b@),
        r is None ==> b64_std_decode_of(s@) is None,
{
    match base64::Engine::decode(&base64::engine::general_purpose::STANDARD, s) {
        Ok(b) => Some(b),
        Err(_) => None,
    }
}

/// Relies on rsa's `DecodePrivateKey::from_pkcs8_der`: whether a DER
/// blob parses is a function of the bytes alone.
#[verifier::external_body]
fn parse_pkcs8_key(der: &Vec<u8>) -> (r: Option<rsa::RsaPrivateKey>)
    ensures
        r is Some <==> pkcs8_key_parses(der@),
{
    <rsa::RsaPrivateKey as rsa::pkcs8::DecodePrivateKey>::from_pkcs8_der(der.as_slice()).ok()
}

/// Relies on std's `String::from_utf8`: it succeeds exactly on valid
/// UTF-8 and returns the decoded characters.
#[verifier::external_body]
fn utf8_to_string(bytes: Vec<u8>) -> (r: Option<String>)
    ensures
        r matches Some(s) ==> vstd::utf8::valid_utf8(bytes@) && s@ == vstd::utf8::decode_utf8(
            bytes@,
        ),
        r is None ==> !vstd::utf8::valid_utf8(bytes@),
{
    String::from_utf8(bytes).ok()
}

/// What constructing a decryptor from a key string yields: the DER
/// bytes of the key on success, the reason it was rejected otherwise.
pub open spec fn key_outcome(s: Seq<char>) -> Result<Seq<u8>, KeyError> {
    let t = trim_spec(s);
    if t.len() == 0 {
        Err(KeyError::EmptyKey)
    } else {
        match b64_std_decode_of(t) {
            None => Err(KeyError::BadBase64),
            Some(der) => if pkcs8_key_parses(der) {
                Ok(der)
            } else {
                Err(KeyError::BadKey)
            },
        }
    }
}

/// What decrypting a base64 ciphertext under the key with the given
/// DER bytes yields: `None` on bad base64, on cryptographic failure
/// and on non-textual plaintext alike.
pub open spec fn decrypt_outcome(der: Seq<u8>, s: Seq<char>) -> Option<Seq<char>> {
    match b64_std_decode_of(trim_spec(s)) {
        None => None,
        Some(cipher) => match rsa_decrypt_of(der, cipher) {
            None => None,
            Some(plain) => if vstd::utf8::valid_utf8(plain) {
                Some(vstd::utf8::decode_utf8(plain))
            } else {
                None
            },
        },
    }
}

/// Decrypts transport-encrypted credentials under one private key,
/// immutable after construction.
pub struct RsaDecryptor {
    key: rsa::RsaPrivateKey,
    der: Vec<u8>,
}

impl RsaDecryptor {
    /// The DER bytes the held private key was parsed from; the one
    /// constructor keeps the two in step.
    pub closed spec fn spec_der(&self) -> Seq<u8> {
        self.der@
    }

    /// Build a decryptor from a base64-encoded PKCS#8 private key.
    /// The key string is rejected — with the reason — exactly when it
    /// is blank, not base64, or not a parseable key.
    pub fn from_base64(b64_key: &str) -> (r: Result<Self, KeyError>)
        ensures
            r matches Ok(d) ==> key_outcome(b64_key@) == Ok::<Seq<u8>, KeyError>(d.spec_der()),
            r matches Err(e) ==> key_outcome(b64_key@) == Err::<Seq<u8>, KeyError>(e),
    {
        let t = trim_str(b64_key);
        if t.unicode_len() == 0 {
            return Err(KeyError::EmptyKey);
        }
        let der = match b64_std_decode(t) {
            Some(d) => d,
            None => {
                return Err(KeyError::BadBase64);
            },
        };
        match parse_pkcs8_key(&der) {
            Some(key) => Ok(RsaDecryptor { key, der }),
            None => Err(KeyError::BadKey),
        }
    }

    /// Relies on rsa's `RsaPrivateKey::decrypt` with PKCS#1 v1.5
    /// padding: the result is a function of the key — recorded by its
    /// DER bytes — and the ciphertext alone.
    #[verifier::external_body]
    fn decrypt_raw(&self, cipher: &Vec<u8>) -> (r: Option<Vec<u8>>)
        ensures
            r matches Some(p) ==> rsa_decrypt_of(self.spec_der(), cipher@) == Some(p@),
            r is None ==> rsa_decrypt_of(self.spec_der(), cipher@) is None,
    {
        self.key.decrypt(rsa::Pkcs1v15Encrypt, cipher.as_slice()).ok()
    }

    /// Decrypt a base64-encoded ciphertext to its plaintext string.
    /// Whatever goes wrong — base64, decryption, or the plaintext not
    /// being text — the error is the one indistinguishable
    /// [`DecryptError`].
    pub fn decrypt_base64(&self, cipher_b64: &str) -> (r: Result<String, DecryptError>)
        ensures
            r matches Ok(p) ==> decrypt_outcome(self.spec_der(), cipher_b64@) == Some(p@),
            r is Err <==> decrypt_outcome(self.spec_der(), cipher_b64@) is None,
            r is Err ==> r == Err::<String, DecryptError>(DecryptError),
    {
        let t = trim_str(cipher_b64);
        let cipher = match b64_std_decode(t) {
            Some(c) => c,
            None => {
                return Err(DecryptError);
            },
        };
        let plain = match self.decrypt_raw(&cipher) {
            Some(p) => p,
            None => {
                return Err(DecryptError);
            },
        };
        match utf8_to_string(plain) {
            Some(s) => Ok(s),
            None => Err(DecryptError),
        }
    }
}

} // verus!
