//! Wall-clock readings, taken on trust: nothing can be promised of
//! what the clock returns, so callers state what holds of every value.

use vstd::prelude::*;

use crate::numbers::dec_nat;
use crate::numbers::render_u64;

verus! {

/// Relies on `std::time::SystemTime::now`: the wall clock, read once
/// and converted to whole seconds since the unix epoch; a clock that
/// reads before the epoch yields zero.
#[verifier::external_body]
pub fn now_unix_secs() -> u64 {
    std::time::SystemTime::now().duration_since(std::time::UNIX_EPOCH).unwrap_or_default().as_secs()
}

/// Relies on `std::time::SystemTime::now`: the wall clock, read once
/// and converted to whole milliseconds since the unix epoch, saturated
/// into 64 bits; a clock that reads before the epoch yields zero.
#[verifier::external_body]
pub fn now_unix_millis() -> u64 {
    let ms = std::time::SystemTime::now().duration_since(
        std::time::UNIX_EPOCH,
    ).unwrap_or_default().as_millis();
    if ms > u64::MAX as u128 {
        u64::MAX
    } else {
        ms as u64
    }
}

/// The current unix time in milliseconds, rendered in decimal: the
/// timestamp format of the response envelope.
pub fn now_millis_string() -> (r: String)
    ensures
        exists|m: int| 0 <= m && r@ == #[trigger] dec_string(m),
{
    let ms = now_unix_millis();
    let mut bytes: Vec<u8> = Vec::new();
    render_u64(ms, &mut bytes);
    proof {
        assert(bytes@ =~= dec_nat(ms as nat));
        crate::numbers::lemma_dec_nat_canonical(ms as nat);
        assert(forall|i: int|
            0 <= i < bytes@.len() ==> 48 <= #[trigger] bytes@[i] <= 57) by {
            assert(forall|i: int|
                0 <= i < bytes@.len() ==> crate::numbers::is_digit(#[trigger] bytes@[i]));
        }
    }
    let s = digits_to_string(&bytes);
    proof {
        assert(s@ == dec_string(ms as int));
    }
    s
}

/// The decimal rendering of a number, as characters.
pub open spec fn dec_string(m: int) -> Seq<char> {
    dec_nat(m as nat).map_values(|b: u8| b as char)
}

/// Turn a sequence of ASCII digit bytes into the corresponding string.
fn digits_to_string(bytes: &Vec<u8>) -> (r: String)
    requires
        forall|i: int| 0 <= i < bytes@.len() ==> 48 <= #[trigger] bytes@[i] <= 57,
    ensures
        r@ == bytes@.map_values(|b: u8| b as char),
{
    let mut out = String::new();
    let mut i: usize = 0;
    while i < bytes.len()
        invariant
            i <= bytes@.len(),
            forall|k: int| 0 <= k < bytes@.len() ==> 48 <= #[trigger] bytes@[k] <= 57,
            out@ == bytes@.take(i as int).map_values(|b: u8| b as char),
        decreases bytes@.len() - i,
    {
        let b = bytes[i];
        let one = if b == 48 {
            "0"
        } else if b == 49 {
            "1"
        } else if b == 50 {
            "2"
        } else if b == 51 {
            "3"
        } else if b == 52 {
            "4"
        } else if b == 53 {
            "5"
        } else if b == 54 {
            "6"
        } else if b == 55 {
            "7"
        } else if b == 56 {
            "8"
        } else {
            "9"
        };
        proof {
            reveal_strlit("0");
            reveal_strlit("1");
            reveal_strlit("2");
            reveal_strlit("3");
            reveal_strlit("4");
            reveal_strlit("5");
            reveal_strlit("6");
            reveal_strlit("7");
            reveal_strlit("8");
            reveal_strlit("9");
        }
        out.append(one);
        proof {
            assert(out@ =~= bytes@.take(i + 1).map_values(|b2: u8| b2 as char));
        }
        i = i + 1;
    }
    proof {
        assert(bytes@.take(bytes@.len() as int) =~= bytes@);
    }
    out
}

} // verus!
