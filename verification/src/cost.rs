//! Fixed-point statistics and the per-node traversal cost.
//!
//! Reliability (the fraction of delivery attempts through a node that
//! succeeded) and congestion (a node's load relative to the busiest known
//! node) are fractions in [0, 1], held as integers scaled by `STAT_SCALE`.
//! A node with no observations has reliability = congestion = 0, meaning
//! "unknown", not "perfect".
//!
//! The traversal cost of a node is inversely proportional to its combined
//! reliability and congestion headroom:
//!
//! > cost = COST_SCALE / (reliability + (STAT_SCALE - congestion))
//!
//! so a perfectly reliable, uncongested node has the minimum cost and an
//! unreliable, congested node has a high one. The raw tallies record
//! successes and failures; reliability is successes / (successes + failures),
//! applied uniformly in the cost formula. When both terms of the denominator
//! are zero (reliability 0 and congestion at full scale) the division would
//! be degenerate, and the cost is a fixed large-but-finite sentinel instead.

use vstd::prelude::*;
use vstd::arithmetic::div_mod::lemma_div_is_ordered_by_denominator;
use vstd::arithmetic::div_mod::lemma_multiply_divide_le;
use vstd::arithmetic::div_mod::lemma_multiply_divide_lt;
use vstd::arithmetic::div_mod::lemma_div_by_multiple;
use vstd::arithmetic::mul::lemma_mul_inequality;

verus! {

/// One unit of reliability or congestion: the scaled representation of 1.0.
pub const STAT_SCALE: u64 = 1000;

/// Numerator of the cost formula, chosen so costs keep three digits of
/// precision below the decimal point of the unscaled formula.
pub const COST_SCALE: u64 = 1_000_000;

/// Cost substituted when the denominator of the cost formula is zero.
pub const COST_SENTINEL: u64 = 2_000_000;

/// The traversal cost of a node with the given scaled reliability (`pdr`,
/// the packet delivery ratio) and scaled congestion.
pub open spec fn node_cost_spec(pdr: u64, congestion: u64) -> u64 {
    let d = pdr + STAT_SCALE - congestion;
    if d <= 0 {
        COST_SENTINEL
    } else {
        (COST_SCALE as int / d) as u64
    }
}

/// Scaled reliability learned from raw tallies: successes over attempts,
/// zero (unknown) when nothing was observed.
pub open spec fn reliability_of(ack: u64, nack: u64) -> u64 {
    if ack + nack == 0 {
        0
    } else {
        (ack as int * STAT_SCALE as int / (ack as int + nack as int)) as u64
    }
}

/// Scaled congestion of a node whose observation tally is `tally` while the
/// busiest node's tally is `max`: the busiest node reads exactly full scale.
/// The division floors, so a tally below a thousandth of the maximum reads
/// zero — still within the [0, 1) bound of every non-maximal node.
pub open spec fn normalized_congestion(tally: u64, max: u64) -> u64 {
    if max == 0 {
        0
    } else {
        (tally as int * STAT_SCALE as int / max as int) as u64
    }
}

/// Addition of costs, saturating at the top of the type.
pub open spec fn sat_add_spec(a: u64, b: u64) -> u64 {
    if a + b > u64::MAX {
        u64::MAX
    } else {
        (a + b) as u64
    }
}

/// A tally increment, saturating at the top of the type.
pub open spec fn sat_inc_spec(a: u64) -> u64 {
    if a < u64::MAX {
        (a + 1) as u64
    } else {
        u64::MAX
    }
}

pub fn sat_add(a: u64, b: u64) -> (r: u64)
    ensures
        r == sat_add_spec(a, b),
{
    if a <= u64::MAX - b {
        a + b
    } else {
        u64::MAX
    }
}

pub fn sat_inc(a: u64) -> (r: u64)
    ensures
        r == sat_inc_spec(a),
{
    if a < u64::MAX {
        a + 1
    } else {
        u64::MAX
    }
}

/// `num * STAT_SCALE / den`, computed without overflow; the workhorse of
/// both the reliability ratio and the congestion normalization.
pub fn scaled_ratio(num: u64, den: u64) -> (r: u64)
    requires
        1 <= den,
        num <= den,
    ensures
        r == num as int * STAT_SCALE as int / den as int,
        r <= STAT_SCALE,
{
    proof {
        lemma_mul_inequality(num as int, u64::MAX as int, STAT_SCALE as int);
    }
    let wide: u128 = (num as u128) * (STAT_SCALE as u128) / (den as u128);
    proof {
        lemma_multiply_divide_le(num as int * STAT_SCALE as int, den as int, STAT_SCALE as int);
    }
    wide as u64
}

/// The scaled reliability of a node from its raw delivery tallies.
pub fn reliability_ratio(ack: u64, nack: u64) -> (r: u64)
    ensures
        r == reliability_of(ack, nack),
        r <= STAT_SCALE,
{
    if ack == 0 && nack == 0 {
        0
    } else {
        let den: u128 = ack as u128 + nack as u128;
        proof {
            lemma_mul_inequality(ack as int, u64::MAX as int, STAT_SCALE as int);
        }
        let wide: u128 = (ack as u128) * (STAT_SCALE as u128) / den;
        proof {
            lemma_multiply_divide_le(
                ack as int * STAT_SCALE as int,
                ack as int + nack as int,
                STAT_SCALE as int,
            );
        }
        wide as u64
    }
}

/// Every cost the formula can produce lies between these bounds; in
/// particular a cost is never zero, so path costs strictly grow with
/// every hop.
pub proof fn lemma_cost_bounds(pdr: u64, congestion: u64)
    requires
        pdr <= STAT_SCALE,
        congestion <= STAT_SCALE,
    ensures
        COST_SCALE as int / (2 * STAT_SCALE as int) <= node_cost_spec(pdr, congestion) <= COST_SENTINEL,
{
    let d = pdr + STAT_SCALE - congestion;
    if d > 0 {
        lemma_div_is_ordered_by_denominator(COST_SCALE as int, d, 2 * STAT_SCALE as int);
        lemma_div_is_ordered_by_denominator(COST_SCALE as int, 1, d);
    }
}

/// Raising a node's reliability, all else fixed, never raises its traversal
/// cost.
pub proof fn lemma_cost_monotonic_in_reliability(pdr1: u64, pdr2: u64, congestion: u64)
    requires
        pdr1 <= pdr2 <= STAT_SCALE,
        congestion <= STAT_SCALE,
    ensures
        node_cost_spec(pdr2, congestion) <= node_cost_spec(pdr1, congestion),
{
    let d1 = pdr1 + STAT_SCALE - congestion;
    let d2 = pdr2 + STAT_SCALE - congestion;
    if d1 <= 0 {
        lemma_cost_bounds(pdr2, congestion);
    } else {
        lemma_div_is_ordered_by_denominator(COST_SCALE as int, d1, d2);
    }
}

/// Lowering a node's congestion, all else fixed, never raises its traversal
/// cost.
pub proof fn lemma_cost_monotonic_in_congestion(pdr: u64, congestion1: u64, congestion2: u64)
    requires
        congestion1 <= congestion2 <= STAT_SCALE,
        pdr <= STAT_SCALE,
    ensures
        node_cost_spec(pdr, congestion1) <= node_cost_spec(pdr, congestion2),
{
    let d1 = pdr + STAT_SCALE - congestion2;
    let d2 = pdr + STAT_SCALE - congestion1;
    if d1 <= 0 {
        lemma_cost_bounds(pdr, congestion1);
    } else {
        lemma_div_is_ordered_by_denominator(COST_SCALE as int, d1, d2);
    }
}

/// After normalization against the maximum tally, the busiest node's
/// congestion is exactly full scale and every other node's lies below it.
pub proof fn lemma_congestion_normalization(tally: u64, max: u64)
    requires
        1 <= tally <= max,
    ensures
        normalized_congestion(tally, max) <= STAT_SCALE,
        tally == max ==> normalized_congestion(tally, max) == STAT_SCALE,
        tally < max ==> normalized_congestion(tally, max) < STAT_SCALE,
{
    lemma_multiply_divide_le(tally as int * STAT_SCALE as int, max as int, STAT_SCALE as int);
    if tally == max {
        lemma_div_by_multiple(STAT_SCALE as int, max as int);
    } else {
        lemma_multiply_divide_lt(tally as int * STAT_SCALE as int, max as int, STAT_SCALE as int);
    }
}

} // verus!
