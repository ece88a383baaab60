use admin_auth::auth::check_credentials;
use admin_auth::auth::current_user_id;
use admin_auth::auth::login_finish;
use admin_auth::auth::login_prepare;
use admin_auth::auth::role_codes;
use admin_auth::auth::role_ids;
use admin_auth::auth::validate_login_request;
use admin_auth::auth::RoleRow;
use admin_auth::decryptor::KeyError;
use admin_auth::password::bcrypt_hash;
use admin_auth::BcryptVerifier;
use admin_auth::DecryptError;
use admin_auth::LoginError;
use admin_auth::LoginRequest;
use admin_auth::RsaDecryptor;
use admin_auth::StoredUserRecord;
use admin_auth::TokenService;

use base64::Engine;
use rsa::pkcs8::EncodePrivateKey;
use rsa::Pkcs1v15Encrypt;
use rsa::RsaPrivateKey;
use rsa::RsaPublicKey;

fn request(auth_type: &str, client_id: &str, username: &str, password: &str) -> LoginRequest {
    LoginRequest {
        client_id: client_id.to_string(),
        auth_type: auth_type.to_string(),
        username: username.to_string(),
        password: password.to_string(),
        captcha: String::new(),
        uuid: String::new(),
    }
}

fn fresh_key_pair() -> (String, RsaPublicKey) {
    let mut rng = rand::thread_rng();
    let private = RsaPrivateKey::new(&mut rng, 512).expect("key generation failed");
    let public = RsaPublicKey::from(&private);
    let der = private.to_pkcs8_der().expect("DER encoding failed");
    let b64 = base64::engine::general_purpose::STANDARD.encode(der.as_bytes());
    (b64, public)
}

fn encrypt_for(public: &RsaPublicKey, plaintext: &str) -> String {
    let mut rng = rand::thread_rng();
    let cipher = public
        .encrypt(&mut rng, Pkcs1v15Encrypt, plaintext.as_bytes())
        .expect("encryption failed");
    base64::engine::general_purpose::STANDARD.encode(cipher)
}

#[test]
fn request_fields_are_checked_in_order() {
    assert_eq!(validate_login_request(&request("weChat", "c", "u", "p")),
        Err(LoginError::UnsupportedAuthType));
    assert_eq!(validate_login_request(&request("ACCOUNT", " ", "u", "p")),
        Err(LoginError::MissingClientId));
    assert_eq!(validate_login_request(&request(" account ", "c", "", "p")),
        Err(LoginError::MissingUsername));
    assert_eq!(validate_login_request(&request("", "c", "u", "  ")),
        Err(LoginError::MissingPassword));
    assert_eq!(validate_login_request(&request("", "c", "u", "p")), Ok(()));
    assert_eq!(validate_login_request(&request("AcCoUnT", "c", "u", "p")), Ok(()));
}

#[test]
fn decryption_round_trips_through_the_key_pair() {
    let (key_b64, public) = fresh_key_pair();
    let decryptor = RsaDecryptor::from_base64(&key_b64).expect("construction failed");
    let encrypted = encrypt_for(&public, "S3cret-Pass");
    assert_eq!(decryptor.decrypt_base64(&encrypted), Ok("S3cret-Pass".to_string()));
}

#[test]
fn bad_base64_and_wrong_key_fail_the_same_way() {
    let (key_b64, _) = fresh_key_pair();
    let (_, other_public) = fresh_key_pair();
    let decryptor = RsaDecryptor::from_base64(&key_b64).expect("construction failed");
    let not_base64 = decryptor.decrypt_base64("!!! not base64 !!!");
    let wrong_key = decryptor.decrypt_base64(&encrypt_for(&other_public, "S3cret-Pass"));
    assert_eq!(not_base64, Err(DecryptError));
    assert_eq!(wrong_key, Err(DecryptError));
    assert_eq!(not_base64, wrong_key);
}

#[test]
fn key_construction_rejects_blank_garbage_and_non_keys() {
    assert_eq!(RsaDecryptor::from_base64("").err(), Some(KeyError::EmptyKey));
    assert_eq!(RsaDecryptor::from_base64("  \t ").err(), Some(KeyError::EmptyKey));
    assert_eq!(RsaDecryptor::from_base64("@@@@").err(), Some(KeyError::BadBase64));
    assert_eq!(RsaDecryptor::from_base64("AAAA").err(), Some(KeyError::BadKey));
}

#[test]
fn login_prepare_decrypts_the_submitted_password() {
    let (key_b64, public) = fresh_key_pair();
    let decryptor = RsaDecryptor::from_base64(&key_b64).expect("construction failed");
    let req = request("account", "web", "alice", &encrypt_for(&public, "S3cret-Pass"));
    assert_eq!(login_prepare(&req, &decryptor), Ok("S3cret-Pass".to_string()));
    let bad = request("account", "web", "alice", "%%%");
    assert_eq!(login_prepare(&bad, &decryptor), Err(LoginError::DecryptFailed));
}

#[test]
fn missing_user_and_wrong_password_are_indistinguishable() {
    let verifier = BcryptVerifier::new();
    let hash = bcrypt_hash("S3cret-Pass").expect("hashing failed");
    let record = Some(StoredUserRecord {
        id: 11,
        username: "alice".to_string(),
        password_hash: hash,
        status: 1,
    });
    let absent = check_credentials(&None, "S3cret-Pass", &verifier);
    let mismatch = check_credentials(&record, "Wrong-Pass1", &verifier);
    assert_eq!(absent, Err(LoginError::BadCredential));
    assert_eq!(absent, mismatch);
    assert_eq!(check_credentials(&record, "S3cret-Pass", &verifier), Ok(11));
}

#[test]
fn disabled_accounts_block_issuance_despite_a_correct_password() {
    let verifier = BcryptVerifier::new();
    let hash = bcrypt_hash("S3cret-Pass").expect("hashing failed");
    let record = Some(StoredUserRecord {
        id: 11,
        username: "alice".to_string(),
        password_hash: hash,
        status: 0,
    });
    assert_eq!(
        check_credentials(&record, "S3cret-Pass", &verifier),
        Err(LoginError::AccountDisabled)
    );
}

#[test]
fn a_full_login_yields_a_token_for_the_user() {
    let verifier = BcryptVerifier::new();
    let tokens = TokenService::new("a-signing-secret".to_string(), 24);
    let hash = bcrypt_hash("S3cret-Pass").expect("hashing failed");
    let record = Some(StoredUserRecord {
        id: 23,
        username: "alice".to_string(),
        password_hash: hash,
        status: 1,
    });
    let response =
        login_finish(&record, "S3cret-Pass", &verifier, &tokens).expect("login failed");
    let header = format!("Bearer {}", response.token);
    assert_eq!(current_user_id(&header, &tokens), Ok(23));
}

#[test]
fn unauthorized_headers_are_rejected() {
    let tokens = TokenService::new("a-signing-secret".to_string(), 24);
    assert!(current_user_id("", &tokens).is_err());
    assert!(current_user_id("Bearer junk", &tokens).is_err());
}

#[test]
fn role_rows_project_to_ids_and_codes() {
    let rows = vec![
        RoleRow { id: 1, code: "admin".to_string() },
        RoleRow { id: 2, code: "auditor".to_string() },
    ];
    assert_eq!(role_ids(&rows), vec![1, 2]);
    assert_eq!(role_codes(&rows), vec!["admin".to_string(), "auditor".to_string()]);
    assert!(role_codes(&Vec::new()).is_empty());
}
