//! The credential flow: request validation, password decryption,
//! credential checking against the stored record, token issuance, and
//! the identity read back from an authorization header.
//!
//! Reading the stored record is the caller's part; the decisions in
//! between are made here, each pinned by an exact outcome function.
//! A missing user and a wrong password are deliberately reported as
//! the same failure, so that usernames cannot be enumerated.

use vstd::prelude::*;

use crate::decryptor::decrypt_outcome;
use crate::decryptor::RsaDecryptor;
use crate::password::verify_spec;
use crate::password::BcryptVerifier;
use crate::text::lower_char;
use crate::text::to_lower;
use crate::text::trim_spec;
use crate::text::trim_str;
use crate::token::accepts_token;
use crate::token::token_of;
use crate::token::token_parts_wf;
use crate::token::Claims;
use crate::token::TokenService;

verus! {

/// A submitted login credential; never persisted.
#[derive(Debug)]
pub struct LoginRequest {
    pub client_id: String,
    pub auth_type: String,
    pub username: String,
    /// The password, transport-encrypted and base64-encoded.
    pub password: String,
    pub captcha: String,
    pub uuid: String,
}

/// A successful login: the opaque session token.
#[derive(Debug)]
pub struct LoginResponse {
    pub token: String,
}

/// The stored credential record a username resolves to.
#[derive(Debug)]
pub struct StoredUserRecord {
    pub id: i64,
    pub username: String,
    pub password_hash: String,
    /// Account status: one means enabled, anything else blocks login.
    pub status: i16,
}

/// One role assignment row: the role's id and its code.
#[derive(Debug)]
pub struct RoleRow {
    pub id: i64,
    pub code: String,
}

/// The profile of an identity, as handed back to the caller.
#[derive(Debug)]
pub struct UserInfo {
    pub id: i64,
    pub username: String,
    pub nickname: String,
    pub gender: i16,
    pub email: String,
    pub phone: String,
    pub avatar: String,
    pub description: String,
    pub pwd_reset_time: String,
    pub pwd_expired: bool,
    pub registration_date: String,
    pub dept_name: String,
    pub roles: Vec<String>,
    pub permissions: Vec<String>,
}

/// Why a login was refused. A missing user and a wrong password share
/// one variant on purpose.
#[derive(Debug, Clone, Copy, PartialEq, Eq, Structural)]
pub enum LoginError {
    /// The authentication type is neither empty nor the account kind.
    UnsupportedAuthType,
    /// The client id is blank.
    MissingClientId,
    /// The username is blank.
    MissingUsername,
    /// The password is blank.
    MissingPassword,
    /// The password did not decrypt.
    DecryptFailed,
    /// No such user, or the password does not match.
    BadCredential,
    /// The account exists and the password matches, but the account is
    /// disabled.
    AccountDisabled,
    /// The stored hash could not be checked: a genuine server-side
    /// failure, not a mismatch.
    VerifyFailed,
    /// The session token could not be issued.
    TokenFailed,
    /// The stored record could not be read; the caller maps its own
    /// persistence failures to this.
    StoreFailed,
}

/// The letters of the accepted authentication type, lower-cased.
pub open spec fn account_type() -> Seq<char> {
    seq!['a', 'c', 'c', 'o', 'u', 'n', 't']
}

/// The authentication type is accepted when blank or, after trimming
/// and case folding, exactly the account kind.
pub open spec fn auth_type_ok(s: Seq<char>) -> bool {
    ||| trim_spec(s).len() == 0
    ||| trim_spec(s).map_values(|c: char| lower_char(c)) == account_type()
}

/// What validating a login request yields, checks in submission order:
/// authentication type, client id, username, password.
pub open spec fn login_precheck(req: LoginRequest) -> Result<(), LoginError> {
    if !auth_type_ok(req.auth_type@) {
        Err(LoginError::UnsupportedAuthType)
    } else if trim_spec(req.client_id@).len() == 0 {
        Err(LoginError::MissingClientId)
    } else if trim_spec(req.username@).len() == 0 {
        Err(LoginError::MissingUsername)
    } else if trim_spec(req.password@).len() == 0 {
        Err(LoginError::MissingPassword)
    } else {
        Ok(())
    }
}

/// Whether the trimmed authentication type is the account kind,
/// compared character by character without case.
fn is_account_type(t: &str) -> (r: bool)
    ensures
        r == (t@.map_values(|c: char| lower_char(c)) == account_type()),
{
    let n = t.unicode_len();
    if n != 7 {
        proof {
            assert(t@.map_values(|c: char| lower_char(c)).len() == t@.len());
        }
        return false;
    }
    let m = to_lower(t.get_char(0)) == 'a' && to_lower(t.get_char(1)) == 'c' && to_lower(
        t.get_char(2),
    ) == 'c' && to_lower(t.get_char(3)) == 'o' && to_lower(t.get_char(4)) == 'u' && to_lower(
        t.get_char(5),
    ) == 'n' && to_lower(t.get_char(6)) == 't';
    proof {
        let mapped = t@.map_values(|c: char| lower_char(c));
        assert(mapped.len() == 7);
        assert forall|k: int| 0 <= k < 7 implies mapped[k] == lower_char(t@[k]) by {}
        if m {
            assert(mapped =~= account_type());
        } else if mapped == account_type() {
            assert(lower_char(t@[0]) == 'a');
            assert(lower_char(t@[1]) == 'c');
            assert(lower_char(t@[2]) == 'c');
            assert(lower_char(t@[3]) == 'o');
            assert(lower_char(t@[4]) == 'u');
            assert(lower_char(t@[5]) == 'n');
            assert(lower_char(t@[6]) == 't');
        }
    }
    m
}

/// Validate the fields of a login request, in submission order.
pub fn validate_login_request(req: &LoginRequest) -> (r: Result<(), LoginError>)
    ensures
        r == login_precheck(*req),
{
    let at = trim_str(req.auth_type.as_str());
    if at.unicode_len() != 0 && !is_account_type(at) {
        return Err(LoginError::UnsupportedAuthType);
    }
    if trim_str(req.client_id.as_str()).unicode_len() == 0 {
        return Err(LoginError::MissingClientId);
    }
    if trim_str(req.username.as_str()).unicode_len() == 0 {
        return Err(LoginError::MissingUsername);
    }
    if trim_str(req.password.as_str()).unicode_len() == 0 {
        return Err(LoginError::MissingPassword);
    }
    Ok(())
}

/// Validate a login request and decrypt its password: everything of
/// the login flow that precedes the stored-record lookup. On success
/// the decrypted plaintext password comes back.
pub fn login_prepare(req: &LoginRequest, decryptor: &RsaDecryptor) -> (r: Result<
    String,
    LoginError,
>)
    ensures
        login_precheck(*req) matches Err(e) ==> r == Err::<String, LoginError>(e),
        login_precheck(*req) is Ok ==> match decrypt_outcome(
            decryptor.spec_der(),
            req.password@,
        ) {
            Some(p) => r matches Ok(s) && s@ == p,
            None => r == Err::<String, LoginError>(LoginError::DecryptFailed),
        },
{
    if let Err(e) = validate_login_request(req) {
        return Err(e);
    }
    match decryptor.decrypt_base64(req.password.as_str()) {
        Ok(p) => Ok(p),
        Err(_) => Err(LoginError::DecryptFailed),
    }
}

/// What checking a decrypted password against the looked-up record
/// yields: the user id on success. A missing record and a mismatch
/// share one failure; the account status blocks issuance regardless of
/// password correctness, and is checked after the password.
pub open spec fn login_decision(record: Option<StoredUserRecord>, raw: Seq<char>) -> Result<
    i64,
    LoginError,
> {
    match record {
        None => Err(LoginError::BadCredential),
        Some(u) => match verify_spec(raw, u.password_hash@) {
            Err(_) => Err(LoginError::VerifyFailed),
            Ok(false) => Err(LoginError::BadCredential),
            Ok(true) => if u.status != 1 {
                Err(LoginError::AccountDisabled)
            } else {
                Ok(u.id)
            },
        },
    }
}

/// Check a decrypted password against the stored record.
pub fn check_credentials(
    record: &Option<StoredUserRecord>,
    raw_password: &str,
    verifier: &BcryptVerifier,
) -> (r: Result<i64, LoginError>)
    ensures
        r == login_decision(*record, raw_password@),
{
    match record {
        None => Err(LoginError::BadCredential),
        Some(u) => match verifier.check(raw_password, u.password_hash.as_str()) {
            Err(_) => Err(LoginError::VerifyFailed),
            Ok(false) => Err(LoginError::BadCredential),
            Ok(true) => if u.status != 1 {
                Err(LoginError::AccountDisabled)
            } else {
                Ok(u.id)
            },
        },
    }
}

/// Finish a login: check the credentials and issue the session token.
pub fn login_finish(
    record: &Option<StoredUserRecord>,
    raw_password: &str,
    verifier: &BcryptVerifier,
    tokens: &TokenService,
) -> (r: Result<LoginResponse, LoginError>)
    ensures
        login_decision(*record, raw_password@) matches Err(e) ==> r == Err::<
            LoginResponse,
            LoginError,
        >(e),
        login_decision(*record, raw_password@) matches Ok(uid) ==> ((r matches Ok(resp)
            ==> exists|n: int|
            0 <= n && n + tokens.spec_ttl() <= u64::MAX && resp.token@ == #[trigger] token_of(
                uid as int,
                n,
                n + tokens.spec_ttl(),
                tokens.spec_secret(),
            ) && token_parts_wf(uid as int, n, n + tokens.spec_ttl(), tokens.spec_secret())) && (
        r is Err ==> r == Err::<LoginResponse, LoginError>(LoginError::TokenFailed))),
{
    let uid = match check_credentials(record, raw_password, verifier) {
        Ok(uid) => uid,
        Err(e) => {
            return Err(e);
        },
    };
    match tokens.generate(uid) {
        Ok(token) => Ok(LoginResponse { token }),
        Err(_) => Err(LoginError::TokenFailed),
    }
}

/// The user id carried by a validated set of claims.
pub fn user_id_from_claims(claims: &Claims) -> (r: i64)
    ensures
        r == claims.user_id,
{
    claims.user_id
}

/// The identity behind an authorization header value: validate it as a
/// token — with or without its `Bearer ` prefix — and read the user id
/// out of the claims.
pub fn current_user_id(authorization: &str, tokens: &TokenService) -> (r: Result<
    i64,
    crate::token::TokenError,
>)
    ensures
        r matches Ok(uid) ==> exists|n: int, c: Claims|
            0 <= n && #[trigger] accepts_token(authorization@, tokens.spec_secret(), n, c)
                && c.user_id == uid,
{
    match tokens.parse(authorization) {
        Ok(c) => {
            proof {
                let n = choose|n: int|
                    0 <= n && #[trigger] accepts_token(
                        authorization@,
                        tokens.spec_secret(),
                        n,
                        c,
                    );
            }
            Ok(user_id_from_claims(&c))
        },
        Err(e) => Err(e),
    }
}

/// The role codes of an identity's assignments, in row order.
pub fn role_codes(rows: &Vec<RoleRow>) -> (r: Vec<String>)
    ensures
        r.deep_view().len() == rows@.len(),
        forall|k: int| 0 <= k < rows@.len() ==> r.deep_view()[k] == rows@[k].code@,
{
    let mut out: Vec<String> = Vec::new();
    let n = rows.len();
    let mut i: usize = 0;
    while i < n
        invariant
            i <= n,
            n == rows@.len(),
            out@.len() == i,
            forall|k: int| 0 <= k < i ==> (#[trigger] out@[k])@ == rows@[k].code@,
        decreases n - i,
    {
        let code = rows[i].code.clone();
        proof {
            assert(code@ == rows@[i as int].code@);
        }
        let ghost old_out = out@;
        out.push(code);
        proof {
            assert forall|k: int| 0 <= k < i + 1 implies (#[trigger] out@[k])@ == rows@[k].code@ by {
                if k < i {
                    assert(out@[k] == old_out[k]);
                } else {
                    assert(out@[k] == code);
                }
            }
        }
        i = i + 1;
    }
    proof {
        assert forall|k: int| 0 <= k < rows@.len() implies out.deep_view()[k] == rows@[k].code@ by {
            assert(out.deep_view()[k] == out@[k].deep_view());
            assert(out@[k].deep_view() == out@[k]@);
        }
    }
    out
}

/// The role ids of an identity's assignments, in row order.
pub fn role_ids(rows: &Vec<RoleRow>) -> (r: Vec<i64>)
    ensures
        r@.len() == rows@.len(),
        forall|k: int| 0 <= k < rows@.len() ==> r@[k] == rows@[k].id,
{
    let mut out: Vec<i64> = Vec::new();
    let n = rows.len();
    let mut i: usize = 0;
    while i < n
        invariant
            i <= n,
            n == rows@.len(),
            out@.len() == i,
            forall|k: int| 0 <= k < i ==> out@[k] == rows@[k].id,
        decreases n - i,
    {
        out.push(rows[i].id);
        i = i + 1;
    }
    out
}

/// The profile columns an identity's user row resolves to, with the
/// time columns already rendered by the caller.
#[derive(Debug)]
pub struct UserProfile {
    pub id: i64,
    pub username: String,
    pub nickname: String,
    pub gender: i16,
    pub email: String,
    pub phone: String,
    pub avatar: String,
    pub description: String,
    pub pwd_reset_time: String,
    pub registration_date: String,
    pub dept_name: String,
}

/// Assemble the identity payload from its profile, role codes and
/// permission strings.
pub fn build_user_info(profile: UserProfile, roles: Vec<String>, permissions: Vec<String>) -> (u:
    UserInfo)
    ensures
        u.id == profile.id,
        u.username == profile.username,
        u.nickname == profile.nickname,
        u.gender == profile.gender,
        u.email == profile.email,
        u.phone == profile.phone,
        u.avatar == profile.avatar,
        u.description == profile.description,
        u.pwd_reset_time == profile.pwd_reset_time,
        !u.pwd_expired,
        u.registration_date == profile.registration_date,
        u.dept_name == profile.dept_name,
        u.roles == roles,
        u.permissions == permissions,
{
    UserInfo {
        id: profile.id,
        username: profile.username,
        nickname: profile.nickname,
        gender: profile.gender,
        email: profile.email,
        phone: profile.phone,
        avatar: profile.avatar,
        description: profile.description,
        pwd_reset_time: profile.pwd_reset_time,
        pwd_expired: false,
        registration_date: profile.registration_date,
        dept_name: profile.dept_name,
        roles,
        permissions,
    }
}

} // verus!
