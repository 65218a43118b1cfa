use vstd::prelude::*;
use vstd::arithmetic::div_mod::{
    lemma_fundamental_div_mod, lemma_fundamental_div_mod_converse, lemma_mod_pos_bound,
};

use crate::error::SerpError;

verus! {

/// A click-through rate kept as the exact fraction `clicks / impressions`.
///
/// The rates that this library hands out have `impressions > 0` and
/// `clicks <= impressions`, so they lie in `0..=1`.
#[derive(Debug, Clone, Copy, PartialEq, Eq, Structural)]
pub struct Rate {
    /// Numerator: clicks.
    pub clicks: u64,
    /// Denominator: impressions.
    pub impressions: u64,
}

impl Rate {
    /// A proper rate: defined (some impressions) and at most 1.
    pub open spec fn wf(self) -> bool {
        0 < self.impressions && self.clicks <= self.impressions
    }

    /// `impressions * clicks / self.impressions`, rounded to the nearest whole
    /// number, halves rounded up.
    pub open spec fn projected(self, impressions: u64) -> int {
        (2 * impressions * self.clicks + self.impressions) / (2 * self.impressions as int)
    }

    /// Clicks expected from `impressions` at this rate, rounded to the nearest whole click.
    pub fn project(&self, impressions: u64) -> (r: u64)
        requires
            self.wf(),
        ensures
            r == self.projected(impressions),
            r <= impressions,
            2 * r * self.impressions <= 2 * impressions * self.clicks + self.impressions < 2 * (r
                + 1) * self.impressions,
    {
        let n: u128 = impressions as u128;
        let c: u128 = self.clicks as u128;
        let d: u128 = self.impressions as u128;
        assert(n * c <= 0xffff_ffff_ffff_ffffu128 * 0xffff_ffff_ffff_ffffu128) by (nonlinear_arith)
            requires
                n <= 0xffff_ffff_ffff_ffffu128,
                c <= 0xffff_ffff_ffff_ffffu128,
        ;
        let x: u128 = n * c;
        let q: u128 = x / d;
        let rem: u128 = x % d;
        let up: u128 = if 2 * rem >= d {
            1
        } else {
            0
        };
        proof {
            lemma_round_half_up(x as int, d as int);
            lemma_projection_bound(n as int, c as int, d as int);
            assert(2 * (n * c) == 2 * n * c) by (nonlinear_arith);
        }
        proof {
            lemma_projection_is_nearest_click(*self, impressions);
        }
        (q + up) as u64
    }
}

/// Law: a projection is the whole number of clicks nearest to
/// `impressions * clicks / rate_impressions`, halves rounded up: twice the
/// distance from the exact value is below one denominator on the upper side
/// and at most one on the lower side.
pub proof fn lemma_projection_is_nearest_click(rate: Rate, impressions: u64)
    requires
        rate.wf(),
    ensures
        2 * rate.projected(impressions) * rate.impressions <= 2 * impressions * rate.clicks
            + rate.impressions < 2 * (rate.projected(impressions) + 1) * rate.impressions,
{
    let x = 2 * impressions * rate.clicks + rate.impressions;
    let d = 2 * (rate.impressions as int);
    lemma_fundamental_div_mod(x, d);
    lemma_mod_pos_bound(x, d);
    let v = x / d;
    assert(2 * v * rate.impressions <= x < 2 * (v + 1) * rate.impressions) by (nonlinear_arith)
        requires
            x == d * v + x % d,
            0 <= x % d < d,
            d == 2 * (rate.impressions as int),
    ;
}

/// Rounding `x / d` to the nearest integer, halves up, is the quotient plus one
/// exactly when the remainder is at least half of `d`.
proof fn lemma_round_half_up(x: int, d: int)
    requires
        x >= 0,
        d > 0,
    ensures
        (2 * x + d) / (2 * d) == x / d + (if 2 * (x % d) >= d {
            1int
        } else {
            0int
        }),
{
    lemma_fundamental_div_mod(x, d);
    lemma_mod_pos_bound(x, d);
    let q = x / d;
    let r = x % d;
    let e: int = if 2 * r >= d {
        1
    } else {
        0
    };
    assert(2 * x + d == (q + e) * (2 * d) + (2 * r + d - 2 * d * e)) by (nonlinear_arith)
        requires
            x == d * q + r,
    ;
    lemma_fundamental_div_mod_converse(2 * x + d, 2 * d, q + e, 2 * r + d - 2 * d * e);
}

/// A projection at a rate of at most 1 never exceeds the impressions it is made from.
proof fn lemma_projection_bound(n: int, c: int, d: int)
    requires
        n >= 0,
        0 <= c <= d,
        d > 0,
    ensures
        0 <= (2 * n * c + d) / (2 * d) <= n,
{
    lemma_fundamental_div_mod(2 * n * c + d, 2 * d);
    lemma_mod_pos_bound(2 * n * c + d, 2 * d);
    let v = (2 * n * c + d) / (2 * d);
    let m = (2 * n * c + d) % (2 * d);
    assert(0 <= v <= n) by (nonlinear_arith)
        requires
            2 * n * c + d == 2 * d * v + m,
            0 <= m < 2 * d,
            n >= 0,
            0 <= c <= d,
            d > 0,
    ;
}

/// `x` clamped to `u64::MAX`: the result of adding up non-negative `u64`
/// values with `saturating_add`.
pub open spec fn saturated(x: int) -> u64 {
    if x > u64::MAX {
        u64::MAX
    } else {
        x as u64
    }
}

/// What [`ctr`] returns for these counts.
pub open spec fn spec_ctr(clicks: u64, impressions: u64) -> Result<Rate, SerpError> {
    if impressions == 0 {
        Err(SerpError::NoImpressions)
    } else if clicks > impressions {
        Err(SerpError::ClicksExceedImpressions { clicks, impressions })
    } else {
        Ok(Rate { clicks, impressions })
    }
}

/// Click-through rate `clicks / impressions` as an exact fraction in `0..=1`.
///
/// Zero impressions give [`SerpError::NoImpressions`]; more clicks than
/// impressions give [`SerpError::ClicksExceedImpressions`].
pub fn ctr(clicks: u64, impressions: u64) -> (r: Result<Rate, SerpError>)
    ensures
        r == spec_ctr(clicks, impressions),
        r matches Ok(rate) ==> rate.wf(),
        impressions == 0 ==> r == Err::<Rate, SerpError>(SerpError::NoImpressions),
        0 < impressions && clicks > impressions ==> r == Err::<Rate, SerpError>(
            SerpError::ClicksExceedImpressions { clicks, impressions },
        ),
        0 < impressions && clicks <= impressions ==> r == Ok::<Rate, SerpError>(
            Rate { clicks, impressions },
        ),
{
    if impressions == 0 {
        return Err(SerpError::NoImpressions);
    }
    if clicks > impressions {
        return Err(SerpError::ClicksExceedImpressions { clicks, impressions });
    }
    Ok(Rate { clicks, impressions })
}

} // verus!
