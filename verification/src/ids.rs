//! Identifier generation for write paths: a monotonic counter seeded
//! by the wall clock in milliseconds, threaded through explicit state
//! rather than hidden in a global.

use vstd::prelude::*;

verus! {

/// The generator's state: the last identifier handed out.
#[derive(Debug)]
pub struct IdGenerator {
    pub last: i64,
}

impl IdGenerator {
    /// A fresh generator that has handed out nothing.
    pub fn new() -> (r: IdGenerator)
        ensures
            r.last == 0,
    {
        IdGenerator { last: 0 }
    }
}

/// The next identifier: the current time in milliseconds, or one past
/// the previous identifier when the clock has not advanced beyond it.
/// Identifiers strictly increase.
pub fn next_id(generator: &mut IdGenerator, now_millis: i64) -> (r: i64)
    requires
        old(generator).last < i64::MAX,
    ensures
        r as int == (if now_millis <= old(generator).last {
            old(generator).last + 1int
        } else {
            now_millis as int
        }),
        r > old(generator).last,
        final(generator).last == r,
{
    let candidate = if now_millis <= generator.last {
        generator.last + 1
    } else {
        now_millis
    };
    generator.last = candidate;
    candidate
}

} // verus!
