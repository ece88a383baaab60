use admin_auth::password::bcrypt_hash;
use admin_auth::password::BcryptVerifier;
use admin_auth::password::EqualityVerifier;
use admin_auth::password::HashError;
use admin_auth::password::PasswordVerifier;
use admin_auth::password::VerifyError;

#[test]
fn hash_then_verify_round_trips() {
    let verifier = BcryptVerifier::new();
    let tagged = bcrypt_hash("Passw0rd").expect("hashing failed");
    assert_eq!(verifier.verify("Passw0rd", &tagged), Ok(true));
    assert_eq!(verifier.verify("Passw0rd!", &tagged), Ok(false));
}

#[test]
fn hash_then_verify_round_trips_at_length_bounds() {
    let verifier = BcryptVerifier::new();
    let short = "a2345678";
    let long = "z9".repeat(16);
    assert_eq!(short.len(), 8);
    assert_eq!(long.len(), 32);
    let h1 = bcrypt_hash(short).expect("hashing failed");
    let h2 = bcrypt_hash(&long).expect("hashing failed");
    assert_eq!(verifier.verify(short, &h1), Ok(true));
    assert_eq!(verifier.verify(&long, &h2), Ok(true));
    assert_eq!(verifier.verify(&long, &h1), Ok(false));
}

#[test]
fn empty_stored_hash_is_false_not_error() {
    let verifier = BcryptVerifier::new();
    assert_eq!(verifier.verify("anything", ""), Ok(false));
    assert_eq!(verifier.verify("", ""), Ok(false));
    assert_eq!(verifier.verify("{bcrypt}", ""), Ok(false));
}

#[test]
fn hash_output_carries_legacy_tag() {
    let tagged = bcrypt_hash("Passw0rd").expect("hashing failed");
    assert!(tagged.starts_with("{bcrypt}"));
    assert_eq!(tagged.len(), 68);
}

#[test]
fn untagged_hash_is_accepted_too() {
    let verifier = BcryptVerifier::new();
    let bare = bcrypt::hash("Passw0rd", 4).expect("direct hashing failed");
    assert_eq!(verifier.verify("Passw0rd", &bare), Ok(true));
    let tagged = format!("{{bcrypt}}{}", bare);
    assert_eq!(verifier.verify("Passw0rd", &tagged), Ok(true));
}

#[test]
fn malformed_hash_is_a_genuine_error() {
    let verifier = BcryptVerifier::new();
    assert_eq!(
        verifier.verify("Passw0rd", "not-a-bcrypt-hash"),
        Err(VerifyError::InvalidHash)
    );
    assert_eq!(
        verifier.verify("Passw0rd", "{bcrypt}still-not-a-hash"),
        Err(VerifyError::InvalidHash)
    );
}

#[test]
fn blank_password_is_rejected_by_hash() {
    assert_eq!(bcrypt_hash(""), Err(HashError::EmptyPassword));
    assert_eq!(bcrypt_hash("   "), Err(HashError::EmptyPassword));
    assert_eq!(bcrypt_hash(" \t\r\n"), Err(HashError::EmptyPassword));
}

#[test]
fn equality_verifier_is_a_plain_comparison() {
    let verifier = EqualityVerifier;
    assert_eq!(verifier.verify("abc", "abc"), Ok(true));
    assert_eq!(verifier.verify("abc", "abd"), Ok(false));
    assert_eq!(verifier.verify("", ""), Ok(false));
}
