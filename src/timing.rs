//! Bucket capacity and output size, from the stream's duration and sample rate.
//!
//! A duration is `ts * num / den` seconds: a time stamp count in the stream's
//! time base `num / den`. The estimated number of source samples is that
//! duration times the sample rate, kept as the exact fraction
//! `samples_numerator / den`.
use vstd::prelude::*;

verus! {

/// Numerator, over `den`, of the estimated number of source samples; 0 for an
/// empty, negative or malformed duration.
pub open spec fn samples_numerator(ts: int, num: int, den: int, rate: int) -> nat {
    if ts > 0 && num > 0 && den > 0 && rate > 0 {
        (ts * num * rate) as nat
    } else {
        0
    }
}

/// Smallest integer not below `a / b`.
pub open spec fn ceil_div(a: nat, b: nat) -> nat {
    ((a + b - 1) as nat / b) as nat
}

/// `a / b` rounded to the nearest integer, halves upward.
pub open spec fn round_div(a: nat, b: nat) -> nat {
    ((2 * a + b) as nat / (2 * b)) as nat
}

/// Number of source samples per bucket, so that the stream yields `target`
/// buckets: `round(duration * rate / min(target, estimated samples))`, at
/// least 1, saturated at the largest `usize`.
pub open spec fn capacity_for(ts: int, num: int, den: int, rate: int, target: nat) -> nat {
    let n = samples_numerator(ts, num, den, rate);
    if n == 0 || target == 0 || n < target * den {
        1
    } else {
        let c = round_div(n, (den * target) as nat);
        if c > usize::MAX { usize::MAX as nat } else { c }
    }
}

proof fn lemma_numerator_bound(ts: int, num: int, rate: int)
    requires
        0 < ts <= i64::MAX,
        0 < num <= i32::MAX,
        0 < rate <= u32::MAX,
    ensures
        0 < ts * num * rate < 0x4000_0000_0000_0000_0000_0000_0000_0000,
{
    assert(0 < ts * num * rate <= (i64::MAX as int) * (i32::MAX as int) * (u32::MAX as int)) by (nonlinear_arith)
        requires
            0 < ts <= i64::MAX,
            0 < num <= i32::MAX,
            0 < rate <= u32::MAX,
    ;
}

fn samples_numerator_of(ts: i64, num: i32, den: i32, rate: u32) -> (r: u128)
    ensures
        r as nat == samples_numerator(ts as int, num as int, den as int, rate as int),
        r < 0x4000_0000_0000_0000_0000_0000_0000_0000,
{
    if ts > 0 && num > 0 && den > 0 && rate > 0 {
        proof {
            lemma_numerator_bound(ts as int, num as int, rate as int);
            assert(0 < ts * num <= (i64::MAX as int) * (i32::MAX as int)) by (nonlinear_arith)
                requires
                    0 < ts <= i64::MAX,
                    0 < num <= i32::MAX,
            ;
        }
        let a: u128 = ts as u128 * num as u128;
        a * rate as u128
    } else {
        0
    }
}

/// The estimated number of source samples, rounded up.
pub fn estimated_total_samples(ts: i64, num: i32, den: i32, rate: u32) -> (r: u128)
    ensures
        r as nat == (if den > 0 { ceil_div(samples_numerator(ts as int, num as int, den as int, rate as int), den as nat) } else { 0 }),
{
    let n = samples_numerator_of(ts, num, den, rate);
    if den <= 0 {
        return 0;
    }
    (n + den as u128 - 1) / den as u128
}

/// Number of source samples per bucket, for `target` buckets over the stream.
pub fn bucket_capacity(ts: i64, num: i32, den: i32, rate: u32, target: u32) -> (r: usize)
    ensures
        r as nat == capacity_for(ts as int, num as int, den as int, rate as int, target as nat),
        r >= 1,
{
    let n = samples_numerator_of(ts, num, den, rate);
    if n == 0 || target == 0 {
        return 1;
    }
    proof {
        assert(den as int * target as int <= i32::MAX as int * u32::MAX as int) by (nonlinear_arith)
            requires
                0 < den <= i32::MAX,
                0 < target <= u32::MAX,
        ;
    }
    let d: u128 = den as u128 * target as u128;
    proof {
        assert(d > 0) by (nonlinear_arith)
            requires
                d == den as int * target as int,
                den > 0,
                target > 0,
        ;
    }
    if n < d {
        return 1;
    }
    let c: u128 = (2 * n + d) / (2 * d);
    proof {
        assert(c >= 1) by (nonlinear_arith)
            requires
                c == (2 * n + d) / (2 * d),
                n >= d,
                d > 0,
        {
            vstd::arithmetic::div_mod::lemma_div_is_ordered((2 * d) as int, (2 * n + d) as int, (2 * d) as int);
            vstd::arithmetic::div_mod::lemma_div_by_self((2 * d) as int);
        }
    }
    if c > usize::MAX as u128 {
        usize::MAX
    } else {
        c as usize
    }
}

/// Bytes reserved for one channel's array: room for `min(target, estimated)`
/// values of `precision` decimals (at most `precision + 3` bytes each with the
/// separating comma), less the comma after the last one.
pub open spec fn reserved_width_of(target: nat, estimated: nat, precision: nat) -> nat {
    let count = if target < estimated { target } else { estimated };
    if count == 0 { 0 } else { (count * (precision + 3) - 1) as nat }
}

/// Bytes to reserve for one channel's array.
pub fn reserved_width(target: u32, estimated: u128, precision: usize) -> (r: usize)
    requires
        (if (target as nat) < estimated { target as nat } else { estimated as nat }) * (precision + 3) <= usize::MAX,
    ensures
        r as nat == reserved_width_of(target as nat, estimated as nat, precision as nat),
{
    let count: u128 = if (target as u128) < estimated { target as u128 } else { estimated };
    if count == 0 {
        return 0;
    }
    let c = count as usize;
    proof {
        assert(c * (precision + 3) >= 1) by (nonlinear_arith)
            requires
                c >= 1,
        ;
        assert(precision + 3 <= c * (precision + 3)) by (nonlinear_arith)
            requires
                c >= 1,
        ;
    }
    let per_value: usize = precision + 3;
    c * per_value - 1
}

} // verus!
