//! Fixed-width, epoch-aligned time windows

use vstd::prelude::*;
use vstd::arithmetic::div_mod::{lemma_fundamental_div_mod, lemma_fundamental_div_mod_converse};

verus! {

/// Nanoseconds in a second
pub const NANOS_PER_SECOND: i128 = 1_000_000_000;

/// Whole seconds since the Unix epoch of an instant given in nanoseconds,
/// rounded towards the past.
pub open spec fn unix_seconds(nanos: int) -> int {
    nanos / 1_000_000_000
}

/// The window of `width` seconds that holds the instant `nanos`, named by the
/// second at which it starts: the largest multiple of `width` that is not
/// after the instant's second.
pub open spec fn bucket_key(nanos: int, width: int) -> int {
    (unix_seconds(nanos) / width) * width
}

/// Quotient and remainder of a division that rounds towards negative infinity.
pub fn floor_div_rem(x: i128, d: i128) -> (qr: (i128, i128))
    requires
        0 < d,
    ensures
        qr.0 == x as int / d as int,
        qr.1 == x as int % d as int,
        0 <= qr.1 < d,
{
    if x >= 0 {
        let q: i128 = x / d;
        let r: i128 = x % d;
        (q, r)
    } else {
        let m: i128 = -(x + 1);
        let mq: i128 = m / d;
        let mr: i128 = m % d;
        let q: i128 = -mq - 1;
        let r: i128 = d - 1 - mr;
        proof {
            lemma_fundamental_div_mod(m as int, d as int);
            assert(x as int == q as int * d as int + r as int) by (nonlinear_arith)
                requires
                    m as int == d as int * mq as int + mr as int,
                    m as int == -(x as int + 1),
                    q as int == -(mq as int) - 1,
                    r as int == d as int - 1 - mr as int,
            ;
            lemma_fundamental_div_mod_converse(x as int, d as int, q as int, r as int);
        }
        (q, r)
    }
}

/// The key of the window of `width` seconds that holds the instant `nanos`.
pub fn bucket_of(nanos: i128, width: u16) -> (key: i128)
    requires
        width >= 1,
    ensures
        key == bucket_key(nanos as int, width as int),
{
    let seconds: i128 = floor_div_rem(nanos, NANOS_PER_SECOND).0;
    let rest: i128 = floor_div_rem(seconds, width as i128).1;
    proof {
        lemma_fundamental_div_mod(nanos as int, 1_000_000_000);
        lemma_fundamental_div_mod(seconds as int, width as int);
        assert((seconds as int / width as int) * width as int == width as int * (seconds as int
            / width as int)) by (nonlinear_arith);
    }
    seconds - rest
}

/// Instants in time order fall into windows in key order.
pub proof fn lemma_bucket_key_monotonic(a: int, b: int, width: int)
    requires
        a <= b,
        width >= 1,
    ensures
        bucket_key(a, width) <= bucket_key(b, width),
{
    vstd::arithmetic::div_mod::lemma_div_is_ordered(a, b, 1_000_000_000);
    vstd::arithmetic::div_mod::lemma_div_is_ordered(unix_seconds(a), unix_seconds(b), width);
    vstd::arithmetic::mul::lemma_mul_inequality(
        unix_seconds(a) / width,
        unix_seconds(b) / width,
        width,
    );
}

/// A window starts at its key and ends `width` seconds later: the window of
/// an instant holds the instant's second, and no other window does.
pub proof fn lemma_bucket_key_bounds(nanos: int, width: int)
    requires
        width >= 1,
    ensures
        bucket_key(nanos, width) <= unix_seconds(nanos) < bucket_key(nanos, width) + width,
        bucket_key(nanos, width) % width == 0,
{
    let s = unix_seconds(nanos);
    lemma_fundamental_div_mod(s, width);
    vstd::arithmetic::div_mod::lemma_mod_bound(s, width);
    assert((s / width) * width == width * (s / width)) by (nonlinear_arith);
    vstd::arithmetic::div_mod::lemma_mod_multiples_basic(s / width, width);
}

} // verus!
