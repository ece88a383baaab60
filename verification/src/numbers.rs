//! Decimal rendering of integers as byte sequences, together with the
//! lemmas that make the rendering invertible: the claims payload of a
//! token stores its numbers in this form.

use vstd::prelude::*;

verus! {

/// A byte is an ASCII decimal digit.
pub open spec fn is_digit(b: u8) -> bool {
    48 <= b <= 57
}

/// Every byte of the sequence is an ASCII decimal digit.
pub open spec fn all_digits(s: Seq<u8>) -> bool {
    forall|i: int| 0 <= i < s.len() ==> is_digit(#[trigger] s[i])
}

/// Canonical decimal digits: non-empty, no leading zero unless the
/// number is exactly zero.
pub open spec fn canonical_digits(s: Seq<u8>) -> bool {
    &&& all_digits(s)
    &&& s.len() >= 1
    &&& (s[0] != 48 || s.len() == 1)
}

/// The decimal rendering of a natural number, most significant digit first.
pub open spec fn dec_nat(n: nat) -> Seq<u8>
    decreases n,
{
    if n < 10 {
        seq![(n + 48) as u8]
    } else {
        dec_nat(n / 10).push((n % 10 + 48) as u8)
    }
}

/// The decimal rendering of an integer: a minus sign before the
/// magnitude when the value is negative.
pub open spec fn dec_int(n: int) -> Seq<u8> {
    if n < 0 {
        seq![45u8] + dec_nat((-n) as nat)
    } else {
        dec_nat(n as nat)
    }
}

/// The value of a sequence of decimal digits.
pub open spec fn digits_val(s: Seq<u8>) -> nat
    decreases s.len(),
{
    if s.len() == 0 {
        0
    } else {
        digits_val(s.drop_last()) * 10 + (s.last() - 48) as nat
    }
}

/// A rendered natural number is made of canonical digits.
pub proof fn lemma_dec_nat_canonical(n: nat)
    ensures
        canonical_digits(dec_nat(n)),
        n >= 1 ==> dec_nat(n)[0] != 48,
    decreases n,
{
    if n < 10 {
        assert(dec_nat(n) == seq![(n + 48) as u8]);
    } else {
        lemma_dec_nat_canonical(n / 10);
        let p = dec_nat(n / 10);
        let s = dec_nat(n);
        assert(s == p.push((n % 10 + 48) as u8));
        assert(s[0] == p[0]);
        assert(forall|i: int| 0 <= i < s.len() ==> is_digit(#[trigger] s[i]) && s[i] == if i
            < p.len() {
            p[i]
        } else {
            (n % 10 + 48) as u8
        });
    }
}

/// Rendering then evaluating gives the number back.
pub proof fn lemma_dec_nat_val(n: nat)
    ensures
        digits_val(dec_nat(n)) == n,
    decreases n,
{
    if n < 10 {
        assert(dec_nat(n).drop_last() =~= Seq::<u8>::empty());
        assert(digits_val(Seq::<u8>::empty()) == 0);
        assert(digits_val(dec_nat(n)) == 0 * 10 + ((n + 48) as u8 - 48) as nat);
    } else {
        lemma_dec_nat_val(n / 10);
        let s = dec_nat(n);
        assert(s == dec_nat(n / 10).push((n % 10 + 48) as u8));
        assert(s.drop_last() =~= dec_nat(n / 10));
        assert(s.last() == (n % 10 + 48) as u8);
        assert(digits_val(s) == digits_val(dec_nat(n / 10)) * 10 + (n % 10));
        vstd::arithmetic::div_mod::lemma_fundamental_div_mod(n as int, 10);
    }
}

/// A canonical digit string whose leading digit is not zero denotes
/// a value of at least one.
proof fn lemma_nonzero_lead_val(s: Seq<u8>)
    requires
        all_digits(s),
        s.len() >= 1,
        s[0] != 48,
    ensures
        digits_val(s) >= 1,
    decreases s.len(),
{
    if s.len() > 1 {
        lemma_nonzero_lead_val(s.drop_last());
    }
}

/// Canonical digit strings are the renderings of their values: the
/// rendering map is onto the canonical strings.
pub proof fn lemma_canonical_digits_are_dec(s: Seq<u8>)
    requires
        canonical_digits(s),
    ensures
        s == dec_nat(digits_val(s)),
    decreases s.len(),
{
    let n = digits_val(s);
    if s.len() == 1 {
        assert(s.drop_last() =~= Seq::<u8>::empty());
        assert(digits_val(Seq::<u8>::empty()) == 0);
        assert(n == (s[0] - 48) as nat);
        assert(n < 10);
        assert(s =~= dec_nat(n));
    } else {
        let p = s.drop_last();
        assert(p[0] == s[0]);
        lemma_nonzero_lead_val(p);
        lemma_canonical_digits_are_dec(p);
        assert(n == digits_val(p) * 10 + (s.last() - 48) as nat);
        assert(n / 10 == digits_val(p) && n % 10 == (s.last() - 48) as nat) by {
            vstd::arithmetic::div_mod::lemma_fundamental_div_mod_converse(
                n as int,
                10,
                digits_val(p) as int,
                (s.last() - 48) as int,
            );
        }
        assert(n >= 10);
        assert(s =~= dec_nat(n));
    }
}

/// Two distinct natural numbers never share a rendering.
pub proof fn lemma_dec_nat_injective(a: nat, b: nat)
    requires
        dec_nat(a) == dec_nat(b),
    ensures
        a == b,
{
    lemma_dec_nat_val(a);
    lemma_dec_nat_val(b);
}

/// Render a 64-bit unsigned value in decimal.
pub fn render_u64(n: u64, out: &mut Vec<u8>)
    ensures
        final(out)@ == old(out)@ + dec_nat(n as nat),
{
    let mut digits: Vec<u8> = Vec::new();
    let mut m: u64 = n;
    proof {
        assert(dec_nat(n as nat) =~= dec_nat(m as nat) + digits@.reverse());
    }
    loop
        invariant_except_break
            dec_nat(n as nat) == dec_nat(m as nat) + digits@.reverse(),
        ensures
            dec_nat(n as nat) == digits@.reverse(),
        decreases m,
    {
        let ghost before = digits@;
        if m < 10 {
            digits.push((m as u8) + 48);
            proof {
                assert(dec_nat(m as nat) =~= seq![((m as nat) + 48) as u8]);
                assert(digits@.reverse() =~= seq![((m as nat) + 48) as u8] + before.reverse());
                assert(dec_nat(n as nat) =~= digits@.reverse());
            }
            break;
        } else {
            let d: u8 = (m % 10) as u8;
            digits.push(d + 48);
            proof {
                assert(digits@.reverse() =~= seq![(m % 10 + 48) as u8] + before.reverse());
                assert(dec_nat(m as nat) == dec_nat((m / 10) as nat).push((m % 10 + 48) as u8));
                assert(dec_nat((m / 10) as nat) + digits@.reverse() =~= dec_nat(m as nat)
                    + before.reverse());
            }
            m = m / 10;
        }
    }
    let ghost pre = out@;
    let mut i: usize = digits.len();
    while i > 0
        invariant
            i <= digits.len(),
            dec_nat(n as nat) == digits@.reverse(),
            out@ == pre + digits@.skip(i as int).reverse(),
        decreases i,
    {
        i = i - 1;
        out.push(digits[i]);
        proof {
            assert(digits@.skip(i as int).reverse() =~= digits@.skip(i + 1).reverse().push(
                digits@[i as int],
            ));
            assert(out@ =~= pre + digits@.skip(i as int).reverse());
        }
    }
    proof {
        assert(digits@.skip(0) =~= digits@);
        assert(out@ =~= pre + dec_nat(n as nat));
    }
}

/// Render a 64-bit signed value in decimal, minus sign first when negative.
pub fn render_i64(n: i64, out: &mut Vec<u8>)
    ensures
        final(out)@ == old(out)@ + dec_int(n as int),
{
    if n >= 0 {
        render_u64(n as u64, out);
    } else {
        let ghost pre = out@;
        out.push(45);
        let mag: u64 = if n == i64::MIN {
            9223372036854775808u64
        } else {
            (-n) as u64
        };
        render_u64(mag, out);
        proof {
            assert(out@ =~= pre + (seq![45u8] + dec_nat((-(n as int)) as nat)));
        }
    }
}

} // verus!
