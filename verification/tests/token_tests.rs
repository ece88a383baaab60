use admin_auth::clock::now_unix_secs;
use admin_auth::token::TokenService;
use admin_auth::TokenError;

#[test]
fn validate_right_after_issue_returns_the_claims() {
    let svc = TokenService::new("a-signing-secret".to_string(), 24);
    let token = svc.generate(42).expect("issuance failed");
    let claims = svc.parse(&token).expect("validation failed");
    assert_eq!(claims.user_id, 42);
    assert_eq!(claims.exp, claims.iat + 24 * 3600);
}

#[test]
fn expired_token_is_rejected() {
    let svc = TokenService::new("a-signing-secret".to_string(), 1);
    let now = now_unix_secs();
    let token = svc.generate_at(7, now - 7200).expect("issuance failed");
    // Two hours old with a one-hour life: past expiry and leeway.
    assert_eq!(svc.parse_at(&token, now), Err(TokenError::Invalid));
    // At issuance time the same token is good.
    let claims = svc.parse_at(&token, now - 7200).expect("validation failed");
    assert_eq!(claims.user_id, 7);
}

#[test]
fn expiry_leeway_is_sixty_seconds() {
    let svc = TokenService::new("a-signing-secret".to_string(), 1);
    let now = now_unix_secs();
    let token = svc.generate_at(7, now).expect("issuance failed");
    let exp = now + 3600;
    assert!(svc.parse_at(&token, exp + 60).is_ok());
    assert_eq!(svc.parse_at(&token, exp + 61), Err(TokenError::Invalid));
}

#[test]
fn bearer_prefix_and_bare_form_yield_identical_claims() {
    let svc = TokenService::new("a-signing-secret".to_string(), 24);
    let token = svc.generate(9).expect("issuance failed");
    let bare = svc.parse(&token).expect("bare form failed");
    let prefixed = svc.parse(&format!("Bearer {}", token)).expect("prefixed form failed");
    let lowercase = svc.parse(&format!("bearer {}", token)).expect("lowercase prefix failed");
    let shouting = svc.parse(&format!("BEARER {}", token)).expect("uppercase prefix failed");
    let padded = svc.parse(&format!("  Bearer  {}  ", token)).expect("padded form failed");
    assert_eq!(bare, prefixed);
    assert_eq!(bare, lowercase);
    assert_eq!(bare, shouting);
    assert_eq!(bare, padded);
}

#[test]
fn wrong_secret_is_rejected() {
    let issuing = TokenService::new("one-secret".to_string(), 24);
    let validating = TokenService::new("another-secret".to_string(), 24);
    let token = issuing.generate(1).expect("issuance failed");
    assert!(issuing.parse(&token).is_ok());
    assert_eq!(validating.parse(&token), Err(TokenError::Invalid));
}

#[test]
fn tampered_and_malformed_tokens_are_rejected() {
    let svc = TokenService::new("a-signing-secret".to_string(), 24);
    let token = svc.generate(1).expect("issuance failed");
    let mut tampered = token.clone();
    tampered.pop();
    tampered.push('A');
    assert_eq!(svc.parse(&tampered), Err(TokenError::Invalid));
    assert_eq!(svc.parse(""), Err(TokenError::Invalid));
    assert_eq!(svc.parse("Bearer"), Err(TokenError::Invalid));
    assert_eq!(svc.parse("a.b"), Err(TokenError::Invalid));
    assert_eq!(svc.parse("a.b.c.d"), Err(TokenError::Invalid));
    assert_eq!(svc.parse("not a token at all"), Err(TokenError::Invalid));
}

#[test]
fn non_positive_ttl_becomes_a_day() {
    let svc = TokenService::new("a-signing-secret".to_string(), 0);
    let token = svc.generate(5).expect("issuance failed");
    let claims = svc.parse(&token).expect("validation failed");
    assert_eq!(claims.exp - claims.iat, 86400);
    let svc2 = TokenService::new("a-signing-secret".to_string(), -3);
    let token2 = svc2.generate(5).expect("issuance failed");
    let claims2 = svc2.parse(&token2).expect("validation failed");
    assert_eq!(claims2.exp - claims2.iat, 86400);
}

#[test]
fn issued_tokens_pass_an_independent_validator() {
    let svc = TokenService::new("a-signing-secret".to_string(), 24);
    let token = svc.generate(314159).expect("issuance failed");
    let data = jsonwebtoken::decode::<serde_json::Value>(
        &token,
        &jsonwebtoken::DecodingKey::from_secret(b"a-signing-secret"),
        &jsonwebtoken::Validation::default(),
    )
    .expect("independent validation failed");
    assert_eq!(data.claims.get("userId").and_then(|v| v.as_i64()), Some(314159));
    assert!(data.claims.get("iat").and_then(|v| v.as_u64()).is_some());
    assert!(data.claims.get("exp").and_then(|v| v.as_u64()).is_some());
}

#[test]
fn negative_user_ids_round_trip() {
    let svc = TokenService::new("a-signing-secret".to_string(), 24);
    let token = svc.generate(-12345).expect("issuance failed");
    let claims = svc.parse(&token).expect("validation failed");
    assert_eq!(claims.user_id, -12345);
    let token_min = svc.generate(i64::MIN).expect("issuance failed");
    let claims_min = svc.parse(&token_min).expect("validation failed");
    assert_eq!(claims_min.user_id, i64::MIN);
}

#[test]
fn tokens_signed_under_another_algorithm_are_rejected() {
    // Same secret, but an HS384 header: the header segment differs and
    // the token must not validate.
    let svc = TokenService::new("a-signing-secret".to_string(), 24);
    let mut claims = serde_json::Map::new();
    claims.insert("userId".to_string(), serde_json::Value::from(1i64));
    claims.insert("iat".to_string(), serde_json::Value::from(1u64));
    claims.insert("exp".to_string(), serde_json::Value::from(u64::MAX));
    let foreign = jsonwebtoken::encode(
        &jsonwebtoken::Header::new(jsonwebtoken::Algorithm::HS384),
        &serde_json::Value::Object(claims),
        &jsonwebtoken::EncodingKey::from_secret(b"a-signing-secret"),
    )
    .expect("foreign issuance failed");
    assert_eq!(svc.parse(&foreign), Err(TokenError::Invalid));
}

#[test]
fn only_the_canonical_claim_order_is_accepted() {
    // This service writes userId, iat, exp in that order; a payload
    // with the keys sorted differently is a foreign encoding and is
    // rejected, by design.
    let svc = TokenService::new("a-signing-secret".to_string(), 24);
    let mut claims = serde_json::Map::new();
    claims.insert("userId".to_string(), serde_json::Value::from(1i64));
    claims.insert("iat".to_string(), serde_json::Value::from(1u64));
    claims.insert("exp".to_string(), serde_json::Value::from(u64::MAX));
    // serde_json's default map orders keys alphabetically.
    let reordered = jsonwebtoken::encode(
        &jsonwebtoken::Header::default(),
        &serde_json::Value::Object(claims),
        &jsonwebtoken::EncodingKey::from_secret(b"a-signing-secret"),
    )
    .expect("issuance failed");
    assert_eq!(svc.parse(&reordered), Err(TokenError::Invalid));
}
