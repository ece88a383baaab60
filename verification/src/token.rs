//! Issuance and validation of signed, time-bound identity tokens.
//!
//! A token is `header.payload.signature`: the base64url encodings of a
//! fixed header and of the claims payload, signed with HMAC-SHA256
//! under the service's secret. Validation accepts the token with or
//! without a case-insensitive `Bearer ` prefix, verifies the
//! signature, parses the claims back and checks expiry; every failure
//! collapses into the one opaque [`TokenError`].

use vstd::prelude::*;

use crate::claims::claims_json;
use crate::claims::encodes_claims;
use crate::claims::parse_claims;
use crate::claims::render_claims;
use crate::clock::now_unix_secs;
use crate::text::lower_char;
use crate::text::str_eq;
use crate::text::to_lower;
use crate::text::trim_spec;
use crate::text::trim_str;

verus! {

/// Identity claims embedded inside a signed token.
#[derive(Debug, Clone, Copy, PartialEq, Eq, Structural)]
pub struct Claims {
    /// Identifier of the authenticated user.
    pub user_id: i64,
    /// Issuance time, in unix seconds.
    pub iat: u64,
    /// Expiry time, in unix seconds.
    pub exp: u64,
}

/// A token failed validation; the cause is deliberately not told
/// apart, so that nothing leaks about which check failed.
#[derive(Debug, Clone, Copy, PartialEq, Eq, Structural)]
pub enum TokenError {
    /// The token is malformed, carries a bad signature, or is expired;
    /// or it could not be issued.
    Invalid,
}

/// Seconds of grace allowed past the expiry time during validation.
pub const EXPIRY_LEEWAY_SECS: u64 = 60;

/// The base64url (no padding) encoding of a byte sequence, as the
/// base64 crate's URL-safe engine computes it.
pub uninterp spec fn b64url_of(bytes: Seq<u8>) -> Seq<char>;

/// The base64url (no padding) decoding of a string: `None` when the
/// string is not a valid encoding.
pub uninterp spec fn b64url_decode_of(s: Seq<char>) -> Option<Seq<u8>>;

/// The base64url encoding of the HMAC-SHA256 of a message under a
/// secret, as `jsonwebtoken::crypto::sign` computes it for HS256.
pub uninterp spec fn hs256_sig_of(msg: Seq<char>, secret: Seq<char>) -> Seq<char>;

/// A character of the base64url alphabet; `.` is not among them.
pub open spec fn is_b64url_char(c: char) -> bool {
    ('A' <= c <= 'Z') || ('a' <= c <= 'z') || ('0' <= c <= '9') || c == '-' || c == '_'
}

/// Every character of the sequence belongs to the base64url alphabet.
pub open spec fn b64url_wf(s: Seq<char>) -> bool {
    forall|i: int| 0 <= i < s.len() ==> is_b64url_char(#[trigger] s[i])
}

/// Relies on the base64 crate's `URL_SAFE_NO_PAD` engine: the encoding
/// is a function of the bytes alone, stays inside the URL-safe
/// alphabet, and decodes back to the input.
#[verifier::external_body]
fn b64url_encode(bytes: &Vec<u8>) -> (r: String)
    ensures
        r@ == b64url_of(bytes@),
        b64url_wf(r@),
        b64url_decode_of(r@) == Some(bytes@),
{
    base64::Engine::encode(&base64::engine::general_purpose::URL_SAFE_NO_PAD, bytes)
}

/// Relies on the base64 crate's `URL_SAFE_NO_PAD` engine: decoding is
/// a function of the input alone, and fails exactly on strings that
/// are no valid encoding.
#[verifier::external_body]
fn b64url_decode(s: &str) -> (r: Option<Vec<u8>>)
    ensures
        r matches Some(b) ==> b64url_decode_of(s@) == Some(b@),
        r is None ==> b64url_decode_of(s@) is None,
{
    match base64::Engine::decode(&base64::engine::general_purpose::URL_SAFE_NO_PAD, s) {
        Ok(b) => Some(b),
        Err(_) => None,
    }
}

/// Relies on `jsonwebtoken::crypto::sign` with HS256: it returns the
/// base64url (no padding) HMAC-SHA256 of the message under the secret,
/// a function of the two arguments alone; for HS256 it does not fail.
#[verifier::external_body]
fn hs256_sign(msg: &str, secret: &str) -> (r: String)
    ensures
        r@ == hs256_sig_of(msg@, secret@),
        b64url_wf(r@),
{
    match jsonwebtoken::crypto::sign(
        msg.as_bytes(),
        &jsonwebtoken::EncodingKey::from_secret(secret.as_bytes()),
        jsonwebtoken::Algorithm::HS256,
    ) {
        Ok(s) => s,
        Err(_) => String::new(),
    }
}

/// Relies on `jsonwebtoken::crypto::verify` with HS256: it recomputes
/// the signature of the message under the secret and compares the two
/// strings in constant time; for HS256 it does not fail.
#[verifier::external_body]
fn hs256_verify(sig: &str, msg: &str, secret: &str) -> (r: bool)
    ensures
        r == (sig@ == hs256_sig_of(msg@, secret@)),
{
    match jsonwebtoken::crypto::verify(
        sig,
        msg.as_bytes(),
        &jsonwebtoken::DecodingKey::from_secret(secret.as_bytes()),
        jsonwebtoken::Algorithm::HS256,
    ) {
        Ok(b) => b,
        Err(_) => false,
    }
}

/// The bytes of the fixed token header `{"typ":"JWT","alg":"HS256"}`.
pub open spec fn header_json() -> Seq<u8> {
    seq![
        123u8, 34u8, 116u8, 121u8, 112u8, 34u8, 58u8, 34u8, 74u8, 87u8, 84u8, 34u8, 44u8, 34u8,
        97u8, 108u8, 103u8, 34u8, 58u8, 34u8, 72u8, 83u8, 50u8, 53u8, 54u8, 34u8, 125u8,
    ]
}

/// The signing input of a token: encoded header, a dot, encoded
/// payload.
pub open spec fn signing_input(u: int, iat: int, exp: int) -> Seq<char> {
    b64url_of(header_json()) + seq!['.'] + b64url_of(claims_json(u, iat, exp))
}

/// The full token issued for the given claims under the given secret.
pub open spec fn token_of(u: int, iat: int, exp: int, secret: Seq<char>) -> Seq<char> {
    signing_input(u, iat, exp) + seq!['.'] + hs256_sig_of(signing_input(u, iat, exp), secret)
}

/// What the encoder and signer guarantee of the three segments of a
/// token: all stay inside the base64url alphabet, and the payload
/// decodes back to the claims it was built from. Issuance hands these
/// facts to its caller; validation needs them to recognise the token.
pub open spec fn token_parts_wf(u: int, iat: int, exp: int, secret: Seq<char>) -> bool {
    &&& b64url_wf(b64url_of(header_json()))
    &&& b64url_wf(b64url_of(claims_json(u, iat, exp)))
    &&& b64url_wf(hs256_sig_of(signing_input(u, iat, exp), secret))
    &&& b64url_decode_of(b64url_of(claims_json(u, iat, exp))) == Some(claims_json(u, iat, exp))
}

/// The `bearer ` prefix, lower-cased.
pub open spec fn bearer_prefix() -> Seq<char> {
    seq!['b', 'e', 'a', 'r', 'e', 'r', ' ']
}

/// The token with surrounding whitespace removed and a leading
/// case-insensitive `Bearer ` prefix stripped.
pub open spec fn strip_spec(s: Seq<char>) -> Seq<char> {
    let t = trim_spec(s);
    if t.len() >= 7 && t.take(7).map_values(|c: char| lower_char(c)) == bearer_prefix() {
        trim_spec(t.skip(7))
    } else {
        t
    }
}

/// The token with surrounding whitespace removed and a leading
/// case-insensitive `Bearer ` prefix stripped.
fn strip_auth<'a>(token: &'a str) -> (r: &'a str)
    ensures
        r@ == strip_spec(token@),
{
    let t = trim_str(token);
    let n = t.unicode_len();
    if n >= 7 {
        let has_prefix = to_lower(t.get_char(0)) == 'b' && to_lower(t.get_char(1)) == 'e'
            && to_lower(t.get_char(2)) == 'a' && to_lower(t.get_char(3)) == 'r' && to_lower(
            t.get_char(4),
        ) == 'e' && to_lower(t.get_char(5)) == 'r' && to_lower(t.get_char(6)) == ' ';
        proof {
            let mapped = t@.take(7).map_values(|c: char| lower_char(c));
            assert(mapped.len() == 7);
            assert forall|k: int| 0 <= k < 7 implies mapped[k] == lower_char(t@[k]) by {
                assert(t@.take(7)[k] == t@[k]);
            }
            if has_prefix {
                assert(mapped =~= bearer_prefix());
            } else if mapped == bearer_prefix() {
                assert(lower_char(t@[0]) == 'b');
                assert(lower_char(t@[1]) == 'e');
                assert(lower_char(t@[2]) == 'a');
                assert(lower_char(t@[3]) == 'r');
                assert(lower_char(t@[4]) == 'e');
                assert(lower_char(t@[5]) == 'r');
                assert(lower_char(t@[6]) == ' ');
            }
        }
        if has_prefix {
            let rest = t.substring_char(7, n);
            proof {
                assert(rest@ =~= trim_spec(token@).skip(7));
            }
            return trim_str(rest);
        }
    }
    t
}

/// What the dot scan of validation establishes: the positions of the
/// first three dots, where they exist, and the absence of dots
/// elsewhere.
spec fn scan_ok(t: Seq<char>, dots: int, d1: int, d2: int, d3: int) -> bool {
    &&& 0 <= dots
    &&& (dots == 0 ==> forall|k: int| 0 <= k < t.len() ==> #[trigger] t[k] != '.')
    &&& (dots >= 1 ==> 0 <= d1 < t.len() && t[d1] == '.' && (forall|k: int|
        0 <= k < d1 ==> #[trigger] t[k] != '.'))
    &&& (dots == 1 ==> forall|k: int| d1 < k < t.len() ==> #[trigger] t[k] != '.')
    &&& (dots >= 2 ==> d1 < d2 < t.len() && t[d2] == '.' && (forall|k: int|
        d1 < k < d2 ==> #[trigger] t[k] != '.'))
    &&& (dots == 2 ==> forall|k: int| d2 < k < t.len() ==> #[trigger] t[k] != '.')
    &&& (dots >= 3 ==> d2 < d3 < t.len() && t[d3] == '.')
}

/// A stripped token of exactly the form this service issues: the
/// rendering of in-range claims under the given secret, with the
/// segment guarantees of the encoder.
pub open spec fn shaped(t: Seq<char>, secret: Seq<char>, u: int, iat: int, exp: int) -> bool {
    &&& i64::MIN <= u <= i64::MAX
    &&& 0 <= iat <= u64::MAX
    &&& 0 <= exp <= u64::MAX
    &&& t == token_of(u, iat, exp, secret)
    &&& token_parts_wf(u, iat, exp, secret)
}

/// What validation vouches for when it accepts: after stripping, the
/// token splits at exactly two dots into a header equal to the
/// service's, a payload that decodes to a rendering of the returned
/// claims, and a correct signature over the first two segments; and
/// the expiry has not passed by more than the leeway.
pub open spec fn accepts_token(token: Seq<char>, secret: Seq<char>, now: int, c: Claims) -> bool {
    let t = strip_spec(token);
    exists|i: int, j: int|
        #![trigger t[i], t[j]]
        {
            &&& 0 <= i < j < t.len()
            &&& t[i] == '.' && t[j] == '.'
            &&& forall|k: int| 0 <= k < t.len() && k != i && k != j ==> #[trigger] t[k] != '.'
            &&& t.subrange(0, i) == b64url_of(header_json())
            &&& t.subrange(j + 1, t.len() as int) == hs256_sig_of(t.subrange(0, j), secret)
            &&& (b64url_decode_of(t.subrange(i + 1, j)) matches Some(p) && encodes_claims(
                p,
                c.user_id as int,
                c.iat as int,
                c.exp as int,
            ))
            &&& c.exp + EXPIRY_LEEWAY_SECS >= now
        }
}

/// How a token of the service's own form decomposes: dots stand only
/// between the three segments.
proof fn lemma_token_shape(t: Seq<char>, secret: Seq<char>, u: int, iat: int, exp: int)
    requires
        shaped(t, secret, u, iat, exp),
    ensures
        ({
            let hl = b64url_of(header_json()).len() as int;
            let pl = b64url_of(claims_json(u, iat, exp)).len() as int;
            let i = hl;
            let j = hl + 1 + pl;
            &&& t.len() == j + 1 + hs256_sig_of(signing_input(u, iat, exp), secret).len()
            &&& 0 <= i < j < t.len()
            &&& t[i] == '.' && t[j] == '.'
            &&& (forall|k: int|
                0 <= k < t.len() && k != i && k != j ==> #[trigger] t[k] != '.')
            &&& t.subrange(0, i) == b64url_of(header_json())
            &&& t.subrange(i + 1, j) == b64url_of(claims_json(u, iat, exp))
            &&& t.subrange(j + 1, t.len() as int) == hs256_sig_of(
                signing_input(u, iat, exp),
                secret,
            )
            &&& t.subrange(0, j) == signing_input(u, iat, exp)
        }),
{
    let hh = b64url_of(header_json());
    let pp = b64url_of(claims_json(u, iat, exp));
    let ss = hs256_sig_of(signing_input(u, iat, exp), secret);
    let hl = hh.len() as int;
    let pl = pp.len() as int;
    let i = hl;
    let j = hl + 1 + pl;
    assert(t.subrange(0, i) =~= hh);
    assert(t.subrange(i + 1, j) =~= pp);
    assert(t.subrange(j + 1, t.len() as int) =~= ss);
    assert(t.subrange(0, j) =~= signing_input(u, iat, exp));
    assert forall|k: int| 0 <= k < t.len() && k != i && k != j implies #[trigger] t[k]
        != '.' by {
        if k < i {
            assert(t[k] == hh[k]);
            assert(is_b64url_char(hh[k]));
        } else if k < j {
            assert(t[k] == pp[k - i - 1]);
            assert(is_b64url_char(pp[k - i - 1]));
        } else {
            assert(t[k] == ss[k - j - 1]);
            assert(is_b64url_char(ss[k - j - 1]));
        }
    }
}

/// Under any issued-token premise, the dot scan lands on the two
/// segment separators, and the segments are the issued ones.
proof fn lemma_dots_pin(t: Seq<char>, secret: Seq<char>, dots: int, d1: int, d2: int, d3: int)
    requires
        scan_ok(t, dots, d1, d2, d3),
    ensures
        forall|u: int, iat: int, exp: int|
            #[trigger] shaped(t, secret, u, iat, exp) ==> dots == 2 && d1 == b64url_of(
                header_json(),
            ).len() && d2 == d1 + 1 + b64url_of(claims_json(u, iat, exp)).len() && t.subrange(
                0,
                d1,
            ) == b64url_of(header_json()) && t.subrange(d1 + 1, d2) == b64url_of(
                claims_json(u, iat, exp),
            ) && t.subrange(d2 + 1, t.len() as int) == hs256_sig_of(
                signing_input(u, iat, exp),
                secret,
            ) && t.subrange(0, d2) == signing_input(u, iat, exp),
{
    assert forall|u: int, iat: int, exp: int|
        #[trigger] shaped(t, secret, u, iat, exp) implies dots == 2 && d1 == b64url_of(
        header_json(),
    ).len() && d2 == d1 + 1 + b64url_of(claims_json(u, iat, exp)).len() && t.subrange(0, d1)
        == b64url_of(header_json()) && t.subrange(d1 + 1, d2) == b64url_of(
        claims_json(u, iat, exp),
    ) && t.subrange(d2 + 1, t.len() as int) == hs256_sig_of(signing_input(u, iat, exp), secret)
        && t.subrange(0, d2) == signing_input(u, iat, exp) by {
        lemma_token_shape(t, secret, u, iat, exp);
        let i = b64url_of(header_json()).len() as int;
        let j = i + 1 + b64url_of(claims_json(u, iat, exp)).len();
        assert(t[i] == '.' && t[j] == '.');
        if dots == 0 {
            assert(t[i] != '.');
        } else {
            // The first dot of the scan is the first dot of the token.
            assert(d1 == i) by {
                if d1 < i {
                    assert(t[d1] != '.');
                } else if d1 > i {
                    assert(t[i] != '.');
                }
            }
            if dots == 1 {
                assert(t[j] != '.');
            } else {
                assert(d2 == j) by {
                    if d2 < j {
                        assert(t[d2] != '.');
                    } else if d2 > j {
                        assert(t[j] != '.');
                    }
                }
                if dots >= 3 {
                    assert(t[d3] != '.');
                }
            }
        }
    }
}

/// A `Bearer ` prefix, in any letter case, changes nothing about what
/// validation sees: stripping the prefixed form of a clean token — one
/// with no whitespace of its own — yields the bare token, and the bare
/// token strips to itself.
pub proof fn lemma_bearer_prefix_ignored(prefix: Seq<char>, bare: Seq<char>)
    requires
        prefix.len() == 7,
        prefix.map_values(|c: char| lower_char(c)) == bearer_prefix(),
        bare.len() > 0,
        forall|k: int| 0 <= k < bare.len() ==> !crate::text::is_space_char(#[trigger] bare[k]),
    ensures
        strip_spec(prefix + bare) == bare,
        strip_spec(bare) == bare,
{
    let full = prefix + bare;
    assert(prefix.map_values(|c: char| lower_char(c))[0] == lower_char(prefix[0]));
    assert(lower_char(prefix[0]) == 'b');
    assert(full.first() == prefix[0]);
    assert(!crate::text::is_space_char(full.first()));
    assert(full.last() == bare.last());
    crate::text::lemma_trim_spec_noop(full);
    assert(full.take(7) =~= prefix);
    assert(full.take(7).map_values(|c: char| lower_char(c)) == bearer_prefix());
    assert(full.skip(7) =~= bare);
    crate::text::lemma_trim_spec_noop(bare);
    assert(strip_spec(full) == trim_spec(bare));
    // The bare token itself never matches the prefix: its seventh
    // character would have to be a space.
    if bare.len() >= 7 && bare.take(7).map_values(|c: char| lower_char(c)) == bearer_prefix() {
        assert(bare.take(7).map_values(|c: char| lower_char(c))[6] == lower_char(bare[6]));
        assert(lower_char(bare[6]) == ' ');
        assert(!crate::text::is_space_char(bare[6]));
    }
}

/// A freshly issued token reaches validation unchanged: it carries no
/// whitespace and no `Bearer ` prefix, so stripping leaves it alone,
/// and it is of the shape that validation accepts. Together with the
/// issuance and validation contracts this says that validating an
/// issued token returns exactly the claims it was issued with while it
/// is not expired, and rejects it once it is.
pub proof fn lemma_fresh_token_is_shaped(u: i64, iat: u64, exp: u64, secret: Seq<char>)
    requires
        token_parts_wf(u as int, iat as int, exp as int, secret),
    ensures
        shaped(
            strip_spec(token_of(u as int, iat as int, exp as int, secret)),
            secret,
            u as int,
            iat as int,
            exp as int,
        ),
        strip_spec(token_of(u as int, iat as int, exp as int, secret)) == token_of(
            u as int,
            iat as int,
            exp as int,
            secret,
        ),
        token_of(u as int, iat as int, exp as int, secret).len() >= 2,
        forall|k: int|
            0 <= k < token_of(u as int, iat as int, exp as int, secret).len()
                ==> !crate::text::is_space_char(
                #[trigger] token_of(u as int, iat as int, exp as int, secret)[k],
            ),
{
    let t = token_of(u as int, iat as int, exp as int, secret);
    assert(shaped(t, secret, u as int, iat as int, exp as int));
    lemma_token_shape(t, secret, u as int, iat as int, exp as int);
    let i = b64url_of(header_json()).len() as int;
    let j = i + 1 + b64url_of(claims_json(u as int, iat as int, exp as int)).len();
    assert forall|k: int| 0 <= k < t.len() implies !crate::text::is_space_char(
        #[trigger] t[k],
    ) by {
        if k == i || k == j {
            assert(t[k] == '.');
        } else {
            assert(t[k] != '.');
            // Every other character comes from a base64url segment.
            if k < i {
                assert(t[k] == b64url_of(header_json())[k]);
                assert(is_b64url_char(t[k]));
            } else if k < j {
                assert(t[k] == b64url_of(claims_json(u as int, iat as int, exp as int))[k - i
                    - 1]);
                assert(is_b64url_char(t[k]));
            } else {
                assert(t[k] == hs256_sig_of(
                    signing_input(u as int, iat as int, exp as int),
                    secret,
                )[k - j - 1]);
                assert(is_b64url_char(t[k]));
            }
        }
    }
    crate::text::lemma_trim_spec_noop(t);
    if t.len() >= 7 && t.take(7).map_values(|c: char| lower_char(c)) == bearer_prefix() {
        assert(t.take(7).map_values(|c: char| lower_char(c))[6] == lower_char(t[6]));
        assert(lower_char(t[6]) == ' ');
        assert(!crate::text::is_space_char(t[6]));
    }
}

/// Issues and validates signed identity tokens under one secret and
/// one fixed time-to-live.
pub struct TokenService {
    secret: String,
    ttl_secs: u64,
    header_b64: String,
}

/// The largest time-to-live, in hours, whose conversion to seconds
/// fits in 64 bits.
pub const MAX_TTL_HOURS: i64 = 5124095576030431;

impl TokenService {
    /// What the service holds: the stored header encoding really is
    /// the encoding of the fixed header, and the time-to-live is
    /// positive.
    #[verifier::type_invariant]
    spec fn wf(&self) -> bool {
        &&& self.header_b64@ == b64url_of(header_json())
        &&& b64url_wf(self.header_b64@)
        &&& 1 <= self.ttl_secs
    }

    /// The signing secret.
    pub closed spec fn spec_secret(&self) -> Seq<char> {
        self.secret@
    }

    /// The time-to-live in seconds.
    pub closed spec fn spec_ttl(&self) -> u64 {
        self.ttl_secs
    }

    /// A new token service over a signing secret and a time-to-live in
    /// hours; a non-positive time-to-live is coerced to 24 hours.
    pub fn new(secret: String, ttl_hours: i64) -> (r: Self)
        requires
            ttl_hours <= MAX_TTL_HOURS,
        ensures
            r.spec_secret() == secret@,
            r.spec_ttl() as int == (if ttl_hours <= 0 {
                86400
            } else {
                ttl_hours * 3600
            }),
    {
        let ttl_secs: u64 = if ttl_hours <= 0 {
            86400
        } else {
            (ttl_hours as u64) * 3600
        };
        let mut header: Vec<u8> = Vec::new();
        header.push(123);
        header.push(34);
        header.push(116);
        header.push(121);
        header.push(112);
        header.push(34);
        header.push(58);
        header.push(34);
        header.push(74);
        header.push(87);
        header.push(84);
        header.push(34);
        header.push(44);
        header.push(34);
        header.push(97);
        header.push(108);
        header.push(103);
        header.push(34);
        header.push(58);
        header.push(34);
        header.push(72);
        header.push(83);
        header.push(50);
        header.push(53);
        header.push(54);
        header.push(34);
        header.push(125);
        proof {
            assert(header@ =~= header_json());
        }
        let header_b64 = b64url_encode(&header);
        TokenService { secret, ttl_secs, header_b64 }
    }

    /// Issue a token for a user id as of the given time: the result is
    /// exactly [`token_of`] over the service's secret, with expiry one
    /// time-to-live after `now`. Issuance fails only when the expiry
    /// would leave 64 bits.
    pub fn generate_at(&self, user_id: i64, now: u64) -> (r: Result<String, TokenError>)
        ensures
            now + self.spec_ttl() <= u64::MAX ==> (r matches Ok(t) && t@ == token_of(
                user_id as int,
                now as int,
                now + self.spec_ttl(),
                self.spec_secret(),
            ) && token_parts_wf(
                user_id as int,
                now as int,
                now + self.spec_ttl(),
                self.spec_secret(),
            )),
            now + self.spec_ttl() > u64::MAX ==> r == Err::<String, TokenError>(
                TokenError::Invalid,
            ),
    {
        proof {
            use_type_invariant(self);
        }
        if now > u64::MAX - self.ttl_secs {
            return Err(TokenError::Invalid);
        }
        let exp = now + self.ttl_secs;
        let payload = render_claims(user_id, now, exp);
        let payload_b64 = b64url_encode(&payload);
        let mut msg = self.header_b64.clone();
        msg.append(".");
        msg.append(payload_b64.as_str());
        proof {
            reveal_strlit(".");
            assert((".")@ =~= seq!['.']);
            assert(msg@ =~= signing_input(user_id as int, now as int, exp as int));
        }
        let sig = hs256_sign(msg.as_str(), self.secret.as_str());
        let mut token = msg;
        token.append(".");
        token.append(sig.as_str());
        proof {
            assert(token@ =~= token_of(user_id as int, now as int, exp as int, self.secret@));
        }
        Ok(token)
    }

    /// Validate a token as of the given time.
    ///
    /// Exactly the tokens of [`shaped`] form — a token this service's
    /// secret signed, whose parts the encoder vouches for — are
    /// accepted while unexpired and rejected once expired; and
    /// whatever is accepted satisfies [`accepts_token`]: it carries a
    /// valid signature over a payload that encodes the returned
    /// claims.
    pub fn parse_at(&self, token: &str, now: u64) -> (r: Result<Claims, TokenError>)
        ensures
            r matches Ok(c) ==> accepts_token(token@, self.spec_secret(), now as int, c),
            forall|u: int, iat: int, exp: int|
                #[trigger] shaped(strip_spec(token@), self.spec_secret(), u, iat, exp) ==> ((exp
                    + EXPIRY_LEEWAY_SECS >= now ==> r == Ok::<Claims, TokenError>(
                    Claims { user_id: u as i64, iat: iat as u64, exp: exp as u64 },
                )) && (exp + EXPIRY_LEEWAY_SECS < now ==> r == Err::<Claims, TokenError>(
                    TokenError::Invalid,
                ))),
    {
        proof {
            use_type_invariant(self);
        }
        let ghost secret = self.secret@;
        let t = strip_auth(token);
        let m = t.unicode_len();
        let mut dots: usize = 0;
        let mut d1: usize = 0;
        let mut d2: usize = 0;
        let mut d3: usize = 0;
        let mut i: usize = 0;
        while i < m
            invariant
                i <= m,
                m == t@.len(),
                dots <= i,
                dots == 0 ==> forall|k: int| 0 <= k < i ==> t@[k] != '.',
                dots >= 1 ==> d1 < i && t@[d1 as int] == '.' && (forall|k: int|
                    0 <= k < d1 ==> t@[k] != '.'),
                dots == 1 ==> forall|k: int| d1 < k < i ==> t@[k] != '.',
                dots >= 2 ==> d1 < d2 < i && t@[d2 as int] == '.' && (forall|k: int|
                    d1 < k < d2 ==> t@[k] != '.'),
                dots == 2 ==> forall|k: int| d2 < k < i ==> t@[k] != '.',
                dots >= 3 ==> d2 < d3 < i && t@[d3 as int] == '.',
            decreases m - i,
        {
            if t.get_char(i) == '.' {
                if dots == 0 {
                    d1 = i;
                } else if dots == 1 {
                    d2 = i;
                } else if dots == 2 {
                    d3 = i;
                }
                dots = dots + 1;
            }
            i = i + 1;
        }
        proof {
            assert(scan_ok(t@, dots as int, d1 as int, d2 as int, d3 as int));
            lemma_dots_pin(t@, secret, dots as int, d1 as int, d2 as int, d3 as int);
        }
        if dots != 2 {
            return Err(TokenError::Invalid);
        }
        let header_seg = t.substring_char(0, d1);
        let payload_seg = t.substring_char(d1 + 1, d2);
        let sig_seg = t.substring_char(d2 + 1, m);
        let msg = t.substring_char(0, d2);
        if !str_eq(header_seg, self.header_b64.as_str()) {
            return Err(TokenError::Invalid);
        }
        let payload = match b64url_decode(payload_seg) {
            Some(b) => b,
            None => {
                return Err(TokenError::Invalid);
            },
        };
        let parsed = parse_claims(&payload);
        let (user_id, iat, exp) = match parsed {
            Some(x) => x,
            None => {
                proof {
                    assert forall|u: int, ia: int, ex: int|
                        #[trigger] shaped(t@, secret, u, ia, ex) implies false by {
                        assert(payload@ == claims_json(u, ia, ex));
                        assert(encodes_claims(payload@, u, ia, ex));
                    }
                }
                return Err(TokenError::Invalid);
            },
        };
        proof {
            assert forall|u: int, ia: int, ex: int|
                #[trigger] shaped(t@, secret, u, ia, ex) implies u == user_id as int && ia
                == iat as int && ex == exp as int by {
                assert(payload@ == claims_json(u, ia, ex));
                assert(encodes_claims(payload@, u, ia, ex));
            }
        }
        if !hs256_verify(sig_seg, msg, self.secret.as_str()) {
            return Err(TokenError::Invalid);
        }
        if now > exp && now - exp > EXPIRY_LEEWAY_SECS {
            return Err(TokenError::Invalid);
        }
        let c = Claims { user_id, iat, exp };
        proof {
            assert(t@[d1 as int] == '.' && t@[d2 as int] == '.');
            assert(accepts_token(token@, secret, now as int, c));
        }
        Ok(c)
    }

    /// Validate a token as of the current wall clock.
    pub fn parse(&self, token: &str) -> (r: Result<Claims, TokenError>)
        ensures
            r matches Ok(c) ==> exists|n: int|
                0 <= n && #[trigger] accepts_token(token@, self.spec_secret(), n, c),
    {
        let now = now_unix_secs();
        self.parse_at(token, now)
    }

    /// Issue a token for a user id as of the current wall clock.
    pub fn generate(&self, user_id: i64) -> (r: Result<String, TokenError>)
        ensures
            r matches Ok(t) ==> exists|n: int|
                0 <= n && n + self.spec_ttl() <= u64::MAX && t@ == #[trigger] token_of(
                    user_id as int,
                    n,
                    n + self.spec_ttl(),
                    self.spec_secret(),
                ) && token_parts_wf(user_id as int, n, n + self.spec_ttl(), self.spec_secret()),
    {
        let now = now_unix_secs();
        self.generate_at(user_id, now)
    }
}

} // verus!

