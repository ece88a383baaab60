//! The claims payload of a token: a flat JSON object carrying the user
//! id, the issuance time and the expiry time, rendered and parsed in a
//! fixed canonical form so that the two directions invert each other.

use vstd::prelude::*;

use crate::numbers::all_digits;
use crate::numbers::canonical_digits;
use crate::numbers::dec_int;
use crate::numbers::dec_nat;
use crate::numbers::digits_val;
use crate::numbers::is_digit;
use crate::numbers::lemma_canonical_digits_are_dec;
use crate::numbers::lemma_dec_nat_canonical;
use crate::numbers::lemma_dec_nat_val;
use crate::numbers::render_i64;
use crate::numbers::render_u64;

verus! {

/// The bytes of `{"userId":`.
pub open spec fn lit_user() -> Seq<u8> {
    seq![123u8, 34u8, 117u8, 115u8, 101u8, 114u8, 73u8, 100u8, 34u8, 58u8]
}

/// The bytes of `,"iat":`.
pub open spec fn lit_iat() -> Seq<u8> {
    seq![44u8, 34u8, 105u8, 97u8, 116u8, 34u8, 58u8]
}

/// The bytes of `,"exp":`.
pub open spec fn lit_exp() -> Seq<u8> {
    seq![44u8, 34u8, 101u8, 120u8, 112u8, 34u8, 58u8]
}

/// The canonical claims payload for a user id, an issuance time and an
/// expiry time: `{"userId":U,"iat":I,"exp":E}` with the three numbers
/// in canonical decimal form.
pub open spec fn claims_json(u: int, iat: int, exp: int) -> Seq<u8> {
    lit_user() + dec_int(u) + lit_iat() + dec_nat(iat as nat) + lit_exp() + dec_nat(exp as nat)
        + seq![125u8]
}

/// Render the canonical claims payload.
pub fn render_claims(user_id: i64, iat: u64, exp: u64) -> (r: Vec<u8>)
    ensures
        r@ == claims_json(user_id as int, iat as int, exp as int),
{
    let mut out: Vec<u8> = Vec::new();
    out.push(123);
    out.push(34);
    out.push(117);
    out.push(115);
    out.push(101);
    out.push(114);
    out.push(73);
    out.push(100);
    out.push(34);
    out.push(58);
    proof {
        assert(out@ =~= lit_user());
    }
    render_i64(user_id, &mut out);
    let ghost a = out@;
    out.push(44);
    out.push(34);
    out.push(105);
    out.push(97);
    out.push(116);
    out.push(34);
    out.push(58);
    proof {
        assert(out@ =~= a + lit_iat());
    }
    render_u64(iat, &mut out);
    let ghost b = out@;
    out.push(44);
    out.push(34);
    out.push(101);
    out.push(120);
    out.push(112);
    out.push(34);
    out.push(58);
    proof {
        assert(out@ =~= b + lit_exp());
    }
    render_u64(exp, &mut out);
    out.push(125);
    proof {
        assert(out@ =~= claims_json(user_id as int, iat as int, exp as int));
    }
    out
}

/// Whether the bytes of `{"userId":` stand at `pos`.
fn lit_user_at(p: &Vec<u8>, pos: usize) -> (r: bool)
    requires
        pos <= p@.len(),
    ensures
        r == (pos + 10 <= p@.len() && p@.subrange(pos as int, pos + 10) == lit_user()),
{
    let ok = p.len() - pos >= 10 && p[pos] == 123 && p[pos + 1] == 34 && p[pos + 2] == 117 && p[pos
        + 3] == 115 && p[pos + 4] == 101 && p[pos + 5] == 114 && p[pos + 6] == 73 && p[pos + 7]
        == 100 && p[pos + 8] == 34 && p[pos + 9] == 58;
    proof {
        if ok {
            assert(p@.subrange(pos as int, pos + 10) =~= lit_user());
        } else if pos + 10 <= p@.len() && p@.subrange(pos as int, pos + 10) == lit_user() {
            assert forall|k: int| 0 <= k < 10 implies p@[pos + k] == lit_user()[k] by {
                assert(p@.subrange(pos as int, pos + 10)[k] == p@[pos + k]);
            }
            assert(p@[pos as int] == 123);
            assert(p@[pos + 1] == 34);
            assert(p@[pos + 2] == 117);
            assert(p@[pos + 3] == 115);
            assert(p@[pos + 4] == 101);
            assert(p@[pos + 5] == 114);
            assert(p@[pos + 6] == 73);
            assert(p@[pos + 7] == 100);
            assert(p@[pos + 8] == 34);
            assert(p@[pos + 9] == 58);
        }
    }
    ok
}

/// Whether the bytes of `,"iat":` stand at `pos`.
fn lit_iat_at(p: &Vec<u8>, pos: usize) -> (r: bool)
    requires
        pos <= p@.len(),
    ensures
        r == (pos + 7 <= p@.len() && p@.subrange(pos as int, pos + 7) == lit_iat()),
{
    let ok = p.len() - pos >= 7 && p[pos] == 44 && p[pos + 1] == 34 && p[pos + 2] == 105 && p[pos
        + 3] == 97 && p[pos + 4] == 116 && p[pos + 5] == 34 && p[pos + 6] == 58;
    proof {
        if ok {
            assert(p@.subrange(pos as int, pos + 7) =~= lit_iat());
        } else if pos + 7 <= p@.len() && p@.subrange(pos as int, pos + 7) == lit_iat() {
            assert forall|k: int| 0 <= k < 7 implies p@[pos + k] == lit_iat()[k] by {
                assert(p@.subrange(pos as int, pos + 7)[k] == p@[pos + k]);
            }
            assert(p@[pos as int] == 44);
            assert(p@[pos + 1] == 34);
            assert(p@[pos + 2] == 105);
            assert(p@[pos + 3] == 97);
            assert(p@[pos + 4] == 116);
            assert(p@[pos + 5] == 34);
            assert(p@[pos + 6] == 58);
        }
    }
    ok
}

/// Whether the bytes of `,"exp":` stand at `pos`.
fn lit_exp_at(p: &Vec<u8>, pos: usize) -> (r: bool)
    requires
        pos <= p@.len(),
    ensures
        r == (pos + 7 <= p@.len() && p@.subrange(pos as int, pos + 7) == lit_exp()),
{
    let ok = p.len() - pos >= 7 && p[pos] == 44 && p[pos + 1] == 34 && p[pos + 2] == 101 && p[pos
        + 3] == 120 && p[pos + 4] == 112 && p[pos + 5] == 34 && p[pos + 6] == 58;
    proof {
        if ok {
            assert(p@.subrange(pos as int, pos + 7) =~= lit_exp());
        } else if pos + 7 <= p@.len() && p@.subrange(pos as int, pos + 7) == lit_exp() {
            assert forall|k: int| 0 <= k < 7 implies p@[pos + k] == lit_exp()[k] by {
                assert(p@.subrange(pos as int, pos + 7)[k] == p@[pos + k]);
            }
            assert(p@[pos as int] == 44);
            assert(p@[pos + 1] == 34);
            assert(p@[pos + 2] == 101);
            assert(p@[pos + 3] == 120);
            assert(p@[pos + 4] == 112);
            assert(p@[pos + 5] == 34);
            assert(p@[pos + 6] == 58);
        }
    }
    ok
}

/// The magnitude of an integer.
pub open spec fn mag_of(u: int) -> int {
    if u < 0 {
        -u
    } else {
        u
    }
}

/// The payload is the canonical claims rendering of `u`, `iat` and
/// `exp`, with the three fields inside their machine ranges.
pub open spec fn encodes_claims(p: Seq<u8>, u: int, iat: int, exp: int) -> bool {
    &&& i64::MIN <= u <= i64::MAX
    &&& 0 <= iat <= u64::MAX
    &&& 0 <= exp <= u64::MAX
    &&& p == claims_json(u, iat, exp)
}

/// How a canonical claims payload decomposes into its segments, seen
/// from the positions the parser visits.
proof fn lemma_claims_shape(p: Seq<u8>, u: int, iat: int, exp: int)
    requires
        encodes_claims(p, u, iat, exp),
    ensures
        ({
            let mag = mag_of(u);
            let s = if u < 0 { 11int } else { 10int };
            let e1 = s + dec_nat(mag as nat).len();
            let e2 = e1 + 7 + dec_nat(iat as nat).len();
            let e3 = e2 + 7 + dec_nat(exp as nat).len();
            &&& p.len() == e3 + 1
            &&& s < e1
            &&& p.subrange(0, 10) == lit_user()
            &&& (u < 0 <==> p[10] == 45)
            &&& 0 <= mag <= u64::MAX
            &&& (u < 0 ==> mag >= 1)
            &&& p.subrange(s, e1) == dec_nat(mag as nat)
            &&& p.subrange(e1, e1 + 7) == lit_iat()
            &&& p[e1] == 44
            &&& p.subrange(e1 + 7, e2) == dec_nat(iat as nat)
            &&& p.subrange(e2, e2 + 7) == lit_exp()
            &&& p[e2] == 44
            &&& p.subrange(e2 + 7, e3) == dec_nat(exp as nat)
            &&& p[e3] == 125
        }),
{
    let mag = mag_of(u);
    let s = if u < 0 { 11int } else { 10int };
    let dm = dec_nat(mag as nat).len() as int;
    let di = dec_nat(iat as nat).len() as int;
    let de = dec_nat(exp as nat).len() as int;
    let e1 = s + dm;
    let e2 = e1 + 7 + di;
    let e3 = e2 + 7 + de;
    lemma_dec_nat_canonical(mag as nat);
    lemma_dec_nat_canonical(iat as nat);
    lemma_dec_nat_canonical(exp as nat);
    if u < 0 {
        assert(dec_int(u) =~= seq![45u8] + dec_nat(mag as nat));
    }
    assert(p.len() == e3 + 1);
    assert(p.subrange(0, 10) =~= lit_user());
    if u < 0 {
        assert(p[10] == dec_int(u)[0]);
    } else {
        assert(p[10] == dec_int(u)[0]);
        assert(is_digit(dec_nat(mag as nat)[0]));
    }
    assert(p.subrange(s, e1) =~= dec_nat(mag as nat));
    assert(p.subrange(e1, e1 + 7) =~= lit_iat());
    assert(p[e1] == lit_iat()[0]);
    assert(p.subrange(e1 + 7, e2) =~= dec_nat(iat as nat));
    assert(p.subrange(e2, e2 + 7) =~= lit_exp());
    assert(p[e2] == lit_exp()[0]);
    assert(p.subrange(e2 + 7, e3) =~= dec_nat(exp as nat));
    assert(p[e3] == 125);
}

/// Any claims premise on `p` pins the sign, the magnitude and the end
/// position of the user id field.
spec fn pin_user(p: Seq<u8>, neg: bool, end1: int, mag: int) -> bool {
    forall|u: int, iat: int, exp: int|
        #[trigger] encodes_claims(p, u, iat, exp) ==> (u < 0 <==> neg) && mag == mag_of(u) && end1
            == (if u < 0 {
            11int
        } else {
            10int
        }) + dec_nat(mag_of(u) as nat).len()
}

/// Any claims premise on `p` pins the issuance time and the end
/// positions of the first two number fields.
spec fn pin_iat(p: Seq<u8>, end1: int, end2: int, iat: int) -> bool {
    forall|u: int, iat2: int, exp: int|
        #[trigger] encodes_claims(p, u, iat2, exp) ==> iat == iat2 && end1 == (if u < 0 {
            11int
        } else {
            10int
        }) + dec_nat(mag_of(u) as nat).len() && end2 == end1 + 7 + dec_nat(iat2 as nat).len()
}

/// Any claims premise on `p` pins the expiry time and the end
/// positions of the last two number fields.
spec fn pin_exp(p: Seq<u8>, end2: int, end3: int, exp: int) -> bool {
    forall|u: int, iat2: int, exp2: int|
        #[trigger] encodes_claims(p, u, iat2, exp2) ==> exp == exp2 && end2 == (if u < 0 {
            11int
        } else {
            10int
        }) + dec_nat(mag_of(u) as nat).len() + 7 + dec_nat(iat2 as nat).len() && end3 == end2 + 7
            + dec_nat(exp2 as nat).len()
}

/// No claims premise survives a missing `{"userId":` head.
proof fn lemma_step_user_lit(p: Seq<u8>, ok: bool)
    requires
        ok == (10 <= p.len() && p.subrange(0, 10) == lit_user()),
        !ok,
    ensures
        forall|u: int, iat: int, exp: int| !(#[trigger] encodes_claims(p, u, iat, exp)),
{
    assert forall|u: int, iat: int, exp: int|
        #[trigger] encodes_claims(p, u, iat, exp) implies false by {
        lemma_claims_shape(p, u, iat, exp);
    }
}

/// The digit scan at the user id position pins sign, magnitude and end
/// position under any claims premise.
proof fn lemma_step_user_digits(p: Seq<u8>, neg: bool, pos1: int, r: Option<(usize, u64)>)
    requires
        p.len() <= usize::MAX,
        neg == (10 < p.len() && p[10] == 45),
        pos1 == (if neg {
            11int
        } else {
            10int
        }),
        forall|v: nat, end: int|
            #![trigger dec_nat(v), p.subrange(pos1, end)]
            v <= u64::MAX && pos1 < end <= p.len() && p.subrange(pos1, end) == dec_nat(v) && (end
                == p.len() || !is_digit(p[end])) ==> r == Some(((end as usize), (v as u64))),
    ensures
        forall|u: int, iat: int, exp: int|
            #[trigger] encodes_claims(p, u, iat, exp) ==> (r matches Some(t) && (u < 0 <==> neg)
                && t.1 as int == mag_of(u) && t.0 as int == (if u < 0 {
                11int
            } else {
                10int
            }) + dec_nat(mag_of(u) as nat).len()),
{
    assert forall|u: int, iat: int, exp: int|
        #[trigger] encodes_claims(p, u, iat, exp) implies (r matches Some(t) && (u < 0 <==> neg)
        && t.1 as int == mag_of(u) && t.0 as int == (if u < 0 {
        11int
    } else {
        10int
    }) + dec_nat(mag_of(u) as nat).len()) by {
        lemma_claims_shape(p, u, iat, exp);
        let s = if u < 0 {
            11int
        } else {
            10int
        };
        let e1 = s + dec_nat(mag_of(u) as nat).len();
        assert(pos1 == s);
        assert(p.subrange(pos1, e1) == dec_nat(mag_of(u) as nat));
        assert(r == Some(((e1 as usize), (mag_of(u) as u64))));
    }
}

/// No claims premise survives a missing `,"iat":` separator.
proof fn lemma_step_iat_lit(p: Seq<u8>, neg: bool, end1: usize, mag: u64, ok: bool)
    requires
        pin_user(p, neg, end1 as int, mag as int),
        ok == (end1 + 7 <= p.len() && p.subrange(end1 as int, end1 + 7) == lit_iat()),
        !ok,
    ensures
        forall|u: int, iat: int, exp: int| !(#[trigger] encodes_claims(p, u, iat, exp)),
{
    assert forall|u: int, iat: int, exp: int|
        #[trigger] encodes_claims(p, u, iat, exp) implies false by {
        lemma_claims_shape(p, u, iat, exp);
        assert(p.subrange(end1 as int, end1 + 7) == lit_iat());
    }
}

/// The digit scan after `,"iat":` pins the issuance time under any
/// claims premise.
proof fn lemma_step_iat_digits(
    p: Seq<u8>,
    neg: bool,
    end1: usize,
    mag: u64,
    r: Option<(usize, u64)>,
)
    requires
        p.len() <= usize::MAX,
        pin_user(p, neg, end1 as int, mag as int),
        forall|v: nat, end: int|
            #![trigger dec_nat(v), p.subrange(end1 + 7, end)]
            v <= u64::MAX && end1 + 7 < end <= p.len() && p.subrange(end1 + 7, end) == dec_nat(v)
                && (end == p.len() || !is_digit(p[end])) ==> r == Some(
                ((end as usize), (v as u64)),
            ),
    ensures
        forall|u: int, iat: int, exp: int|
            #[trigger] encodes_claims(p, u, iat, exp) ==> (r matches Some(t) && t.1 as int == iat
                && t.0 as int == end1 + 7 + dec_nat(iat as nat).len()),
{
    assert forall|u: int, iat: int, exp: int|
        #[trigger] encodes_claims(p, u, iat, exp) implies (r matches Some(t) && t.1 as int == iat
        && t.0 as int == end1 + 7 + dec_nat(iat as nat).len()) by {
        lemma_claims_shape(p, u, iat, exp);
        let e2 = end1 + 7 + dec_nat(iat as nat).len();
        assert(p.subrange(end1 + 7, e2) == dec_nat(iat as nat));
        assert(r == Some(((e2 as usize), (iat as u64))));
    }
}

/// No claims premise survives a missing `,"exp":` separator.
proof fn lemma_step_exp_lit(p: Seq<u8>, end1: usize, end2: usize, iat: u64, ok: bool)
    requires
        pin_iat(p, end1 as int, end2 as int, iat as int),
        ok == (end2 + 7 <= p.len() && p.subrange(end2 as int, end2 + 7) == lit_exp()),
        !ok,
    ensures
        forall|u: int, iat2: int, exp: int| !(#[trigger] encodes_claims(p, u, iat2, exp)),
{
    assert forall|u: int, iat2: int, exp: int|
        #[trigger] encodes_claims(p, u, iat2, exp) implies false by {
        lemma_claims_shape(p, u, iat2, exp);
        assert(p.subrange(end2 as int, end2 + 7) == lit_exp());
    }
}

/// The digit scan after `,"exp":` pins the expiry time under any
/// claims premise.
proof fn lemma_step_exp_digits(
    p: Seq<u8>,
    end1: usize,
    end2: usize,
    iat: u64,
    r: Option<(usize, u64)>,
)
    requires
        p.len() <= usize::MAX,
        pin_iat(p, end1 as int, end2 as int, iat as int),
        forall|v: nat, end: int|
            #![trigger dec_nat(v), p.subrange(end2 + 7, end)]
            v <= u64::MAX && end2 + 7 < end <= p.len() && p.subrange(end2 + 7, end) == dec_nat(v)
                && (end == p.len() || !is_digit(p[end])) ==> r == Some(
                ((end as usize), (v as u64)),
            ),
    ensures
        forall|u: int, iat2: int, exp: int|
            #[trigger] encodes_claims(p, u, iat2, exp) ==> (r matches Some(t) && t.1 as int == exp
                && t.0 as int == end2 + 7 + dec_nat(exp as nat).len()),
{
    assert forall|u: int, iat2: int, exp: int|
        #[trigger] encodes_claims(p, u, iat2, exp) implies (r matches Some(t) && t.1 as int == exp
        && t.0 as int == end2 + 7 + dec_nat(exp as nat).len()) by {
        lemma_claims_shape(p, u, iat2, exp);
        let e3 = end2 + 7 + dec_nat(exp as nat).len();
        assert(p.subrange(end2 + 7, e3) == dec_nat(exp as nat));
        assert(r == Some(((e3 as usize), (exp as u64))));
    }
}

/// No claims premise survives a wrong tail: the payload ends in one
/// closing brace right after the expiry digits.
proof fn lemma_step_tail(p: Seq<u8>, end2: usize, end3: usize, exp: u64, ok: bool)
    requires
        pin_exp(p, end2 as int, end3 as int, exp as int),
        ok == (end3 < p.len() && p[end3 as int] == 125 && end3 + 1 == p.len()),
        !ok,
    ensures
        forall|u: int, iat2: int, exp2: int| !(#[trigger] encodes_claims(p, u, iat2, exp2)),
{
    assert forall|u: int, iat2: int, exp2: int|
        #[trigger] encodes_claims(p, u, iat2, exp2) implies false by {
        lemma_claims_shape(p, u, iat2, exp2);
    }
}

/// The parsed segments reassemble into the canonical rendering of the
/// parsed values.
proof fn lemma_reassemble(
    p: Seq<u8>,
    neg: bool,
    pos1: usize,
    end1: usize,
    end2: usize,
    end3: usize,
    user_id: i64,
    mag: u64,
    iat: u64,
    exp: u64,
)
    requires
        10 <= pos1 <= end1,
        end1 + 7 <= end2,
        end2 + 7 <= end3,
        end3 + 1 == p.len(),
        p.subrange(0, 10) == lit_user(),
        pos1 == (if neg {
            11int
        } else {
            10int
        }),
        neg ==> p[10] == 45,
        neg ==> user_id < 0 && 0 - (user_id as int) == mag as int,
        !neg ==> user_id >= 0 && user_id as int == mag as int,
        p.subrange(pos1 as int, end1 as int) == dec_nat(mag as nat),
        p.subrange(end1 as int, end1 + 7) == lit_iat(),
        p.subrange(end1 + 7, end2 as int) == dec_nat(iat as nat),
        p.subrange(end2 as int, end2 + 7) == lit_exp(),
        p.subrange(end2 + 7, end3 as int) == dec_nat(exp as nat),
        p[end3 as int] == 125,
    ensures
        encodes_claims(p, user_id as int, iat as int, exp as int),
{
    assert(p =~= p.subrange(0, 10) + p.subrange(10, pos1 as int) + p.subrange(
        pos1 as int,
        end1 as int,
    ) + p.subrange(end1 as int, end1 + 7) + p.subrange(end1 + 7, end2 as int) + p.subrange(
        end2 as int,
        end2 + 7,
    ) + p.subrange(end2 + 7, end3 as int) + p.subrange(end3 as int, p.len() as int));
    assert(p.subrange(end3 as int, p.len() as int) =~= seq![125u8]);
    if neg {
        assert(p.subrange(10, pos1 as int) =~= seq![45u8]);
        assert(dec_int(user_id as int) =~= seq![45u8] + dec_nat(mag as nat));
        assert(p.subrange(10, pos1 as int) + p.subrange(pos1 as int, end1 as int) =~= dec_int(
            user_id as int,
        ));
    } else {
        assert(p.subrange(10, pos1 as int) =~= Seq::<u8>::empty());
        assert(p.subrange(10, pos1 as int) + p.subrange(pos1 as int, end1 as int) =~= dec_int(
            user_id as int,
        ));
    }
    assert(p =~= claims_json(user_id as int, iat as int, exp as int));
}

/// Parse a canonical claims payload back into its three numbers: the
/// parser accepts exactly the images of [`claims_json`] over the
/// machine ranges of the three fields.
pub fn parse_claims(p: &Vec<u8>) -> (r: Option<(i64, u64, u64)>)
    ensures
        r matches Some(t) ==> encodes_claims(p@, t.0 as int, t.1 as int, t.2 as int),
        forall|u: int, iat: int, exp: int|
            #[trigger] encodes_claims(p@, u, iat, exp) ==> r == Some(
                (u as i64, iat as u64, exp as u64),
            ),
{
    let n = p.len();
    let ok_user = lit_user_at(p, 0);
    if !ok_user {
        proof {
            lemma_step_user_lit(p@, ok_user);
        }
        return None;
    }
    let neg = 10 < n && p[10] == 45;
    let pos1: usize = if neg {
        11
    } else {
        10
    };
    let parsed1 = parse_digits_u64(p, pos1);
    proof {
        lemma_step_user_digits(p@, neg, pos1 as int, parsed1);
    }
    let (end1, mag) = match parsed1 {
        Some(t) => t,
        None => {
            return None;
        },
    };
    let user_id: i64 = if neg {
        if mag == 0 || mag > 9223372036854775808u64 {
            return None;
        }
        if mag == 9223372036854775808u64 {
            i64::MIN
        } else {
            -(mag as i64)
        }
    } else {
        if mag > 9223372036854775807u64 {
            return None;
        }
        mag as i64
    };
    proof {
        assert(pin_user(p@, neg, end1 as int, mag as int));
    }
    let ok_iat = lit_iat_at(p, end1);
    if !ok_iat {
        proof {
            lemma_step_iat_lit(p@, neg, end1, mag, ok_iat);
        }
        return None;
    }
    let parsed2 = parse_digits_u64(p, end1 + 7);
    proof {
        lemma_step_iat_digits(p@, neg, end1, mag, parsed2);
    }
    let (end2, iat) = match parsed2 {
        Some(t) => t,
        None => {
            return None;
        },
    };
    proof {
        assert(pin_iat(p@, end1 as int, end2 as int, iat as int));
    }
    let ok_exp = lit_exp_at(p, end2);
    if !ok_exp {
        proof {
            lemma_step_exp_lit(p@, end1, end2, iat, ok_exp);
        }
        return None;
    }
    let parsed3 = parse_digits_u64(p, end2 + 7);
    proof {
        lemma_step_exp_digits(p@, end1, end2, iat, parsed3);
    }
    let (end3, exp) = match parsed3 {
        Some(t) => t,
        None => {
            return None;
        },
    };
    proof {
        assert(pin_exp(p@, end2 as int, end3 as int, exp as int));
    }
    let ok_tail = end3 < n && p[end3] == 125 && end3 + 1 == n;
    if !ok_tail {
        proof {
            lemma_step_tail(p@, end2, end3, exp, ok_tail);
        }
        return None;
    }
    proof {
        lemma_reassemble(p@, neg, pos1, end1, end2, end3, user_id, mag, iat, exp);
    }
    Some((user_id, iat, exp))
}

/// The value of a digit prefix never exceeds the value of the whole.
proof fn lemma_digits_val_take_le(s: Seq<u8>, i: int)
    requires
        0 <= i <= s.len(),
    ensures
        digits_val(s.take(i)) <= digits_val(s),
    decreases s.len() - i,
{
    if i < s.len() {
        assert(s.take(i + 1).drop_last() =~= s.take(i));
        assert(digits_val(s.take(i + 1)) == digits_val(s.take(i)) * 10 + (s.take(i + 1).last()
            - 48) as nat);
        lemma_digits_val_take_le(s, i + 1);
        assert(s.take(s.len() as int) =~= s);
    } else {
        assert(s.take(i) =~= s);
    }
}

/// Scan a canonical run of decimal digits starting at `pos` and read
/// its value as a 64-bit number. The run must be non-empty, carry no
/// needless leading zero, fit in 64 bits, and reach either the end of
/// the input or a byte that is not a digit.
fn parse_digits_u64(p: &Vec<u8>, pos: usize) -> (r: Option<(usize, u64)>)
    requires
        pos <= p@.len(),
    ensures
        r matches Some(t) ==> pos < t.0 <= p@.len() && p@.subrange(pos as int, t.0 as int)
            == dec_nat(t.1 as nat) && (t.0 == p@.len() || !is_digit(p@[t.0 as int])),
        forall|v: nat, end: int|
            #![trigger dec_nat(v), p@.subrange(pos as int, end)]
            v <= u64::MAX && pos < end <= p@.len() && p@.subrange(pos as int, end) == dec_nat(v)
                && (end == p@.len() || !is_digit(p@[end])) ==> r == Some(
                ((end as usize), (v as u64)),
            ),
{
    let n = p.len();
    let mut end: usize = pos;
    while end < n && 48 <= p[end] && p[end] <= 57
        invariant
            pos <= end <= n,
            n == p@.len(),
            forall|k: int| pos <= k < end ==> is_digit(#[trigger] p@[k]),
        decreases n - end,
    {
        end = end + 1;
    }
    // `end` is now the first position past the maximal digit run.
    let ghost run = p@.subrange(pos as int, end as int);
    proof {
        assert(all_digits(run));
    }
    if end == pos {
        proof {
            lemma_none_ok(p@, pos as int, end as int);
        }
        return None;
    }
    if p[pos] == 48 && end > pos + 1 {
        // A leading zero in a longer run is not canonical.
        proof {
            lemma_none_ok(p@, pos as int, end as int);
        }
        return None;
    }
    proof {
        assert(canonical_digits(run));
    }
    let mut acc: u64 = 0;
    let mut i: usize = pos;
    while i < end
        invariant
            pos <= i <= end <= n,
            n == p@.len(),
            forall|k: int| pos <= k < end ==> is_digit(#[trigger] p@[k]),
            end == n || !is_digit(p@[end as int]),
            p@[pos as int] != 48 || end == pos + 1,
            acc as nat == digits_val(p@.subrange(pos as int, i as int)),
        decreases end - i,
    {
        let b = p[i];
        proof {
            assert(is_digit(p@[i as int]));
        }
        let d: u64 = (b - 48) as u64;
        if acc > (u64::MAX - d) / 10 {
            // The run denotes a value beyond 64 bits.
            proof {
                assert(acc * 10 + d > u64::MAX) by (nonlinear_arith)
                    requires
                        acc > (u64::MAX - d) / 10,
                        d <= 9,
                ;
                lemma_overflow_none_ok(p@, pos as int, end as int, i as int, acc as nat);
            }
            return None;
        }
        proof {
            assert(acc * 10 + d <= u64::MAX) by (nonlinear_arith)
                requires
                    acc <= (u64::MAX - d) / 10,
                    d <= 9,
            ;
            assert(p@.subrange(pos as int, i + 1).drop_last() =~= p@.subrange(
                pos as int,
                i as int,
            ));
        }
        acc = acc * 10 + d;
        i = i + 1;
    }
    proof {
        lemma_some_ok(p@, pos as int, end as int, acc as nat);
    }
    Some((end, acc))
}

/// When the scan finds no digits, or a non-canonical leading zero, no
/// canonical rendering starts at `pos`.
proof fn lemma_none_ok(p: Seq<u8>, pos: int, end: int)
    requires
        0 <= pos <= end <= p.len(),
        forall|k: int| pos <= k < end ==> is_digit(#[trigger] p[k]),
        end == p.len() || !is_digit(p[end]),
        end == pos || (p[pos] == 48 && end > pos + 1),
    ensures
        forall|v: nat, end2: int|
            #![trigger dec_nat(v), p.subrange(pos, end2)]
            !(v <= u64::MAX && pos < end2 <= p.len() && p.subrange(pos, end2) == dec_nat(v) && (
            end2 == p.len() || !is_digit(p[end2]))),
{
    assert forall|v: nat, end2: int|
        v <= u64::MAX && pos < end2 <= p.len() && p.subrange(pos, end2) == dec_nat(v) && (end2
            == p.len() || !is_digit(p[end2])) implies false by {
        lemma_dec_nat_canonical(v);
        let run2 = p.subrange(pos, end2);
        assert(run2[0] == p[pos]);
        assert(is_digit(p[pos]));
        if end == pos {
            // The maximal run is empty, yet a digit stands at `pos`.
            assert(pos < p.len());
            assert(!is_digit(p[pos]));
        } else {
            // The claimed run sits inside the maximal digit run, so it
            // ends exactly at `end`, and inherits the leading zero.
            assert forall|k: int| pos <= k < end2 implies is_digit(#[trigger] p[k]) by {
                assert(p[k] == run2[k - pos]);
            }
            assert(end2 <= end);
            if end2 < end {
                assert(is_digit(p[end2]));
            }
            assert(end2 == end);
            assert(run2.len() > 1);
            assert(run2[0] == 48);
        }
    }
}

/// When the accumulated value leaves 64 bits, no 64-bit canonical
/// rendering spans the run.
proof fn lemma_overflow_none_ok(p: Seq<u8>, pos: int, end: int, i: int, acc: nat)
    requires
        0 <= pos <= i < end <= p.len(),
        forall|k: int| pos <= k < end ==> is_digit(#[trigger] p[k]),
        end == p.len() || !is_digit(p[end]),
        acc == digits_val(p.subrange(pos, i)),
        acc * 10 + (p[i] - 48) > u64::MAX,
    ensures
        forall|v: nat, end2: int|
            #![trigger dec_nat(v), p.subrange(pos, end2)]
            !(v <= u64::MAX && pos < end2 <= p.len() && p.subrange(pos, end2) == dec_nat(v) && (
            end2 == p.len() || !is_digit(p[end2]))),
{
    assert forall|v: nat, end2: int|
        v <= u64::MAX && pos < end2 <= p.len() && p.subrange(pos, end2) == dec_nat(v) && (end2
            == p.len() || !is_digit(p[end2])) implies false by {
        let run2 = p.subrange(pos, end2);
        lemma_dec_nat_canonical(v);
        assert forall|k: int| pos <= k < end2 implies is_digit(#[trigger] p[k]) by {
            assert(p[k] == run2[k - pos]);
        }
        assert(end2 <= end);
        if end2 < end {
            assert(is_digit(p[end2]));
        }
        assert(end2 == end);
        lemma_dec_nat_val(v);
        assert(digits_val(run2) == v);
        assert(run2.take(i + 1 - pos) =~= p.subrange(pos, i + 1));
        assert(p.subrange(pos, i + 1).drop_last() =~= p.subrange(pos, i));
        assert(digits_val(p.subrange(pos, i + 1)) == acc * 10 + (p[i] - 48) as nat);
        lemma_digits_val_take_le(run2, i + 1 - pos);
    }
}

/// When the scan completes, the run is the canonical rendering of the
/// accumulated value and of no other 64-bit value.
proof fn lemma_some_ok(p: Seq<u8>, pos: int, end: int, acc: nat)
    requires
        0 <= pos < end <= p.len(),
        forall|k: int| pos <= k < end ==> is_digit(#[trigger] p[k]),
        end == p.len() || !is_digit(p[end]),
        p[pos] != 48 || end == pos + 1,
        acc == digits_val(p.subrange(pos, end)),
        acc <= u64::MAX,
    ensures
        p.subrange(pos, end) == dec_nat(acc),
        forall|v: nat, end2: int|
            #![trigger dec_nat(v), p.subrange(pos, end2)]
            v <= u64::MAX && pos < end2 <= p.len() && p.subrange(pos, end2) == dec_nat(v) && (
            end2 == p.len() || !is_digit(p[end2])) ==> v == acc && end2 == end,
{
    let run = p.subrange(pos, end);
    assert(all_digits(run)) by {
        assert forall|k: int| 0 <= k < run.len() implies is_digit(#[trigger] run[k]) by {
            assert(run[k] == p[pos + k]);
        }
    }
    assert(canonical_digits(run));
    lemma_canonical_digits_are_dec(run);
    assert forall|v: nat, end2: int|
        v <= u64::MAX && pos < end2 <= p.len() && p.subrange(pos, end2) == dec_nat(v) && (end2
            == p.len() || !is_digit(p[end2])) implies v == acc && end2 == end by {
        let run2 = p.subrange(pos, end2);
        lemma_dec_nat_canonical(v);
        assert forall|k: int| pos <= k < end2 implies is_digit(#[trigger] p[k]) by {
            assert(p[k] == run2[k - pos]);
        }
        assert(end2 <= end);
        if end2 < end {
            assert(is_digit(p[end2]));
        }
        assert(end2 == end);
        lemma_dec_nat_val(v);
    }
}

} // verus!
