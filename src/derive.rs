//! How each logical channel's value is computed from the values that the
//! source channels hold at one frame position.
use vstd::prelude::*;
use crate::channels::Channel;

verus! {

/// Most source channels a frame may have.
pub const MAX_SOURCE_CHANNELS: usize = 8;

pub open spec fn sum_of(v: Seq<i64>) -> int
    decreases v.len(),
{
    if v.len() == 0 { 0 } else { sum_of(v.drop_last()) + v.last() }
}

pub open spec fn min_of(v: Seq<i64>) -> int
    decreases v.len(),
{
    if v.len() <= 1 {
        v[0] as int
    } else {
        let m = min_of(v.drop_last());
        if (v.last() as int) < m { v.last() as int } else { m }
    }
}

pub open spec fn max_of(v: Seq<i64>) -> int
    decreases v.len(),
{
    if v.len() <= 1 {
        v[0] as int
    } else {
        let m = max_of(v.drop_last());
        if (v.last() as int) > m { v.last() as int } else { m }
    }
}

/// The raw value of channel `c` at a frame position whose source channels
/// hold `v`. With one source channel every logical channel is that value.
/// Mid is kept as the sum of the values and Side as the difference of the
/// first two: their full scale (see `derived_scale`) carries the division.
pub open spec fn derived(c: Channel, v: Seq<i64>) -> int {
    if v.len() == 1 {
        v[0] as int
    } else {
        match c {
            Channel::Left => v[0] as int,
            Channel::Right => v[1] as int,
            Channel::Mid => sum_of(v),
            Channel::Side => v[0] - v[1],
            Channel::Min => min_of(v),
            Channel::Max => max_of(v),
        }
    }
}

/// The raw value that stands for amplitude `1.0` in channel `c`, with `k`
/// source channels whose own full scale is `unit`. Mid is a sum of `k`
/// values and Side a difference of two, so amplitude `|sum / k| / unit`
/// and `|(a - b) / 2| / unit` become `|sum| / (k * unit)` and `|a - b| / (2 * unit)`.
pub open spec fn derived_scale(c: Channel, k: nat, unit: nat) -> nat {
    if k == 1 {
        unit
    } else {
        match c {
            Channel::Mid => k * unit,
            Channel::Side => 2 * unit,
            _ => unit,
        }
    }
}

proof fn lemma_sum_bound(v: Seq<i64>)
    ensures
        -(v.len() * 0x8000_0000_0000_0000) <= sum_of(v) <= v.len() * 0x8000_0000_0000_0000,
    decreases v.len(),
{
    if v.len() > 0 {
        lemma_sum_bound(v.drop_last());
    }
}

/// The raw value of channel `c` at a frame position whose source channels hold `v`.
pub fn derive_value(c: Channel, v: &Vec<i64>) -> (r: i128)
    requires
        1 <= v@.len() <= MAX_SOURCE_CHANNELS,
    ensures
        r as int == derived(c, v@),
{
    if v.len() == 1 {
        return v[0] as i128;
    }
    match c {
        Channel::Left => v[0] as i128,
        Channel::Right => v[1] as i128,
        Channel::Side => v[0] as i128 - v[1] as i128,
        Channel::Mid => {
            let mut s: i128 = 0;
            let mut i: usize = 0;
            while i < v.len()
                invariant
                    i <= v@.len() <= MAX_SOURCE_CHANNELS,
                    s as int == sum_of(v@.take(i as int)),
                decreases v@.len() - i,
            {
                proof {
                    assert(v@.take(i + 1).drop_last() =~= v@.take(i as int));
                    lemma_sum_bound(v@.take(i as int));
                }
                s = s + v[i] as i128;
                i = i + 1;
            }
            proof {
                assert(v@.take(i as int) =~= v@);
            }
            s
        },
        Channel::Min => {
            let mut m: i64 = v[0];
            let mut i: usize = 1;
            while i < v.len()
                invariant
                    1 <= i <= v@.len(),
                    m as int == min_of(v@.take(i as int)),
                decreases v@.len() - i,
            {
                proof {
                    assert(v@.take(i + 1).drop_last() =~= v@.take(i as int));
                }
                if v[i] < m {
                    m = v[i];
                }
                i = i + 1;
            }
            proof {
                assert(v@.take(i as int) =~= v@);
            }
            m as i128
        },
        Channel::Max => {
            let mut m: i64 = v[0];
            let mut i: usize = 1;
            while i < v.len()
                invariant
                    1 <= i <= v@.len(),
                    m as int == max_of(v@.take(i as int)),
                decreases v@.len() - i,
            {
                proof {
                    assert(v@.take(i + 1).drop_last() =~= v@.take(i as int));
                }
                if v[i] > m {
                    m = v[i];
                }
                i = i + 1;
            }
            proof {
                assert(v@.take(i as int) =~= v@);
            }
            m as i128
        },
    }
}

/// Full scale of channel `c` with `k` source channels of full scale `unit`.
pub fn derived_full_scale(c: Channel, k: usize, unit: u64) -> (r: u128)
    requires
        1 <= k <= MAX_SOURCE_CHANNELS,
    ensures
        r as nat == derived_scale(c, k as nat, unit as nat),
        r <= i128::MAX,
{
    if k == 1 {
        return unit as u128;
    }
    proof {
        assert(k as u128 * unit as u128 <= 8 * 0xffff_ffff_ffff_ffffu128) by (nonlinear_arith)
            requires
                k <= 8,
        {
        }
    }
    match c {
        Channel::Mid => k as u128 * unit as u128,
        Channel::Side => 2 * unit as u128,
        _ => unit as u128,
    }
}

} // verus!
