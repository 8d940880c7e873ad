use crate::decimal::{
    product_of, quotient_of, rounded_difference_of, rounded_sum_of, spec_neg, PriceScalar,
};
use crate::error::OrderBookError;
use std::collections::VecDeque;
use vstd::prelude::*;

verus! {

/// Seconds between two funding payments (8 hours).
pub const FUNDING_INTERVAL_SECONDS: u64 = 28800;

/// Nominal seconds between two price samples; also the weight of the newest sample.
pub const SAMPLE_INTERVAL_SECONDS: u64 = 60;

/// Samples kept: 8 hours at one per minute.
pub const MAX_SAMPLES: usize = 480;

/// A mark and an index price observed at a time.
#[derive(Clone, Copy, Debug, PartialEq, Eq, Structural)]
pub struct PriceSample {
    pub mark_price: PriceScalar,
    pub index_price: PriceScalar,
    pub timestamp: u64,
}

impl PriceSample {
    pub open spec fn wf(self) -> bool {
        self.mark_price.wf() && self.index_price.wf()
    }
}

/// Lower bound of the funding rate per interval: -0.01.
pub open spec fn min_rate() -> PriceScalar {
    PriceScalar { mantissa: -1i128, scale: 2 }
}

/// Upper bound of the funding rate per interval: 0.01.
pub open spec fn max_rate() -> PriceScalar {
    PriceScalar { mantissa: 1, scale: 2 }
}

/// `x` limited to `[min_rate, max_rate]`.
pub open spec fn clamp_rate(x: PriceScalar) -> PriceScalar {
    if x.units() < min_rate().units() {
        min_rate()
    } else if x.units() > max_rate().units() {
        max_rate()
    } else {
        x
    }
}

/// What a position pays (negative) or receives: `∓ size · rate`, a long paying when the rate
/// is positive.
pub open spec fn funding_payment_of(size: PriceScalar, is_long: bool, rate: PriceScalar) -> Result<
    PriceScalar,
    OrderBookError,
> {
    match product_of(size, rate) {
        None => Err(OrderBookError::OverflowError),
        Some(p) => Ok(
            if is_long {
                spec_neg(p)
            } else {
                p
            },
        ),
    }
}

/// The samples at or after `start`, in order.
pub open spec fn samples_since(s: Seq<PriceSample>, start: u64) -> Seq<PriceSample>
    decreases s.len(),
{
    if s.len() == 0 {
        s
    } else if s.last().timestamp >= start {
        samples_since(s.drop_last(), start).push(s.last())
    } else {
        samples_since(s.drop_last(), start)
    }
}

/// `(mark − index) / index`.
pub open spec fn premium_of(s: PriceSample) -> Option<PriceScalar> {
    match rounded_difference_of(s.mark_price, s.index_price) {
        None => None,
        Some(d) => quotient_of(d, s.index_price),
    }
}

/// The weight of sample `i`: the time to the next sample, or the nominal interval for the
/// newest one; `None` when timestamps go backwards.
pub open spec fn weight_of(rel: Seq<PriceSample>, i: int) -> Option<PriceScalar> {
    if i < rel.len() - 1 {
        if rel[i + 1].timestamp >= rel[i].timestamp {
            Some(PriceScalar { mantissa: (rel[i + 1].timestamp - rel[i].timestamp) as i128, scale: 0 })
        } else {
            None
        }
    } else {
        Some(PriceScalar { mantissa: SAMPLE_INTERVAL_SECONDS as i128, scale: 0 })
    }
}

/// Running sums of weighted premiums and of weights over `rel[i..]`.
pub open spec fn twap_sums(
    rel: Seq<PriceSample>,
    i: int,
    weighted: PriceScalar,
    total: PriceScalar,
) -> Option<(PriceScalar, PriceScalar)>
    decreases rel.len() - i,
{
    if i >= rel.len() {
        Some((weighted, total))
    } else {
        match (premium_of(rel[i]), weight_of(rel, i)) {
            (Some(p), Some(w)) => match product_of(p, w) {
                Some(term) => match (rounded_sum_of(weighted, term), rounded_sum_of(total, w)) {
                    (Some(w2), Some(t2)) => twap_sums(rel, i + 1, w2, t2),
                    _ => None,
                },
                None => None,
            },
            _ => None,
        }
    }
}

/// The time-weighted premium over the samples of the last `lookback` seconds.
pub open spec fn twap_premium_of(samples: Seq<PriceSample>, lookback: u64) -> Result<
    PriceScalar,
    OrderBookError,
> {
    let zero = PriceScalar { mantissa: 0, scale: 0 };
    if samples.len() == 0 {
        Ok(zero)
    } else {
        let newest = samples.last().timestamp;
        let start = if newest >= lookback {
            (newest - lookback) as u64
        } else {
            0
        };
        let rel = samples_since(samples, start);
        if rel.len() == 0 {
            Ok(zero)
        } else {
            match twap_sums(rel, 0, zero, zero) {
                None => Err(OrderBookError::OverflowError),
                Some((weighted, total)) => if total.units() == 0 {
                    Ok(zero)
                } else {
                    match quotient_of(weighted, total) {
                        Some(q) => Ok(q),
                        None => Err(OrderBookError::OverflowError),
                    }
                },
            }
        }
    }
}

/// Funding-rate state: samples of mark and index, the current clamped rate and the time of
/// the next payment.
#[derive(Clone, Debug)]
pub struct FundingRate {
    pub current_rate: PriceScalar,
    pub next_funding_time: u64,
    pub premium_index: PriceScalar,
    pub interest_rate: PriceScalar,
    pub long_open_interest: PriceScalar,
    pub short_open_interest: PriceScalar,
    /// Samples, oldest first, at most `MAX_SAMPLES`.
    pub price_samples: VecDeque<PriceSample>,
}

impl FundingRate {
    /// The samples, oldest first.
    pub open spec fn samples(&self) -> Seq<PriceSample> {
        self.price_samples@
    }

    pub open spec fn wf(&self) -> bool {
        &&& self.current_rate.wf()
        &&& self.premium_index.wf()
        &&& self.interest_rate.wf()
        &&& self.long_open_interest.wf()
        &&& self.short_open_interest.wf()
        &&& self.samples().len() <= MAX_SAMPLES
        &&& forall|i: int| 0 <= i < self.samples().len() ==> (#[trigger] self.samples()[i]).wf()
    }

    /// Rate zero, first payment after one interval, no samples.
    pub fn new() -> (r: FundingRate)
        ensures
            r.wf(),
            r.current_rate.units() == 0,
            r.next_funding_time == FUNDING_INTERVAL_SECONDS,
            r.premium_index.units() == 0,
            r.interest_rate.units() == 0,
            r.long_open_interest.units() == 0,
            r.short_open_interest.units() == 0,
            r.samples().len() == 0,
    {
        FundingRate {
            current_rate: PriceScalar::zero(),
            next_funding_time: FUNDING_INTERVAL_SECONDS,
            premium_index: PriceScalar::zero(),
            interest_rate: PriceScalar::zero(),
            long_open_interest: PriceScalar::zero(),
            short_open_interest: PriceScalar::zero(),
            price_samples: VecDeque::new(),
        }
    }

    /// Appends a sample, dropping the oldest beyond the cap.
    pub fn add_price_sample(&mut self, mark_price: PriceScalar, index_price: PriceScalar, timestamp: u64)
        requires
            old(self).wf(),
            mark_price.wf(),
            index_price.wf(),
        ensures
            final(self).wf(),
            ({
                let pushed = old(self).samples().push(PriceSample { mark_price, index_price, timestamp });
                final(self).samples() == if pushed.len() > MAX_SAMPLES {
                    pushed.drop_first()
                } else {
                    pushed
                }
            }),
            final(self).current_rate == old(self).current_rate,
            final(self).next_funding_time == old(self).next_funding_time,
            final(self).premium_index == old(self).premium_index,
            final(self).interest_rate == old(self).interest_rate,
            final(self).long_open_interest == old(self).long_open_interest,
            final(self).short_open_interest == old(self).short_open_interest,
    {
        self.price_samples.push_back(PriceSample { mark_price, index_price, timestamp });
        if self.price_samples.len() > MAX_SAMPLES {
            self.price_samples.pop_front();
        }
    }

    /// The time-weighted average of `(mark − index) / index` over the samples taken in the
    /// last `lookback_seconds` before the newest one; zero without samples.
    pub fn calculate_twap_premium(&self, lookback_seconds: u64) -> (r: Result<PriceScalar, OrderBookError>)
        requires
            self.wf(),
        ensures
            r == twap_premium_of(self.samples(), lookback_seconds),
            r matches Ok(x) ==> x.wf(),
    {
        let n = self.price_samples.len();
        if n == 0 {
            return Ok(PriceScalar::zero());
        }
        let newest = self.price_samples[n - 1].timestamp;
        let start = newest.saturating_sub(lookback_seconds);
        let mut rel: Vec<PriceSample> = Vec::new();
        let mut i: usize = 0;
        while i < n
            invariant
                i <= n == self.samples().len(),
                rel@ == samples_since(self.samples().subrange(0, i as int), start),
            decreases n - i,
        {
            proof {
                assert(self.samples().subrange(0, i + 1).drop_last() =~= self.samples().subrange(0, i as int));
            }
            let s = self.price_samples[i];
            if s.timestamp >= start {
                rel.push(s);
            }
            i = i + 1;
        }
        proof {
            assert(self.samples().subrange(0, n as int) =~= self.samples());
        }
        if rel.len() == 0 {
            return Ok(PriceScalar::zero());
        }
        let ghost all = self.samples();
        proof {
            lemma_since_wf(all, start);
        }
        let mut weighted = PriceScalar::zero();
        let mut total = PriceScalar::zero();
        let mut k: usize = 0;
        let m = rel.len();
        while k < m
            invariant
                m == rel.len(),
                m > 0,
                k <= m,
                n == self.samples().len(),
                n > 0,
                newest == self.samples().last().timestamp,
                start == (if newest >= lookback_seconds {
                    (newest - lookback_seconds) as u64
                } else {
                    0
                }),
                rel@ == samples_since(self.samples(), start),
                weighted.wf(),
                total.wf(),
                forall|j: int| 0 <= j < rel.len() ==> (#[trigger] rel@[j]).wf(),
                twap_sums(rel@, 0, (PriceScalar { mantissa: 0, scale: 0 }), (PriceScalar { mantissa: 0, scale: 0 })) == twap_sums(
                    rel@,
                    k as int,
                    weighted,
                    total,
                ),
            decreases m - k,
        {
            let s = rel[k];
            let premium = match s.mark_price.sub_rounded(s.index_price) {
                Some(d) => d.checked_div(s.index_price),
                None => None,
            };
            let weight = if k < m - 1 {
                let next = rel[k + 1].timestamp;
                if next >= s.timestamp {
                    Some(PriceScalar { mantissa: (next - s.timestamp) as i128, scale: 0 })
                } else {
                    None
                }
            } else {
                Some(PriceScalar { mantissa: SAMPLE_INTERVAL_SECONDS as i128, scale: 0 })
            };
            let (p, w) = match (premium, weight) {
                (Some(p), Some(w)) => (p, w),
                _ => return Err(OrderBookError::OverflowError),
            };
            let term = match p.checked_mul(w) {
                Some(t) => t,
                None => return Err(OrderBookError::OverflowError),
            };
            let (w2, t2) = match (weighted.add_rounded(term), total.add_rounded(w)) {
                (Some(a), Some(b)) => (a, b),
                _ => return Err(OrderBookError::OverflowError),
            };
            weighted = w2;
            total = t2;
            k = k + 1;
        }
        if total.is_zero() {
            Ok(PriceScalar::zero())
        } else {
            match weighted.checked_div(total) {
                Some(q) => Ok(q),
                None => Err(OrderBookError::OverflowError),
            }
        }
    }

    /// Sets the rate for the next interval from the 8-hour premium plus the interest rate,
    /// clamped to ±0.01, and schedules the next payment one interval after `timestamp`. On an
    /// error nothing changes.
    pub fn calculate_funding_rate(&mut self, timestamp: u64) -> (r: Result<PriceScalar, OrderBookError>)
        requires
            old(self).wf(),
        ensures
            final(self).wf(),
            final(self).samples() == old(self).samples(),
            match twap_premium_of(old(self).samples(), FUNDING_INTERVAL_SECONDS) {
                Err(e) => r == Err::<PriceScalar, OrderBookError>(e) && *final(self) == *old(self),
                Ok(premium) => match rounded_sum_of(premium, old(self).interest_rate) {
                    None => r == Err::<PriceScalar, OrderBookError>(OrderBookError::OverflowError)
                        && *final(self) == *old(self),
                    Some(raw) => if timestamp > u64::MAX - FUNDING_INTERVAL_SECONDS {
                        r == Err::<PriceScalar, OrderBookError>(OrderBookError::OverflowError)
                            && *final(self) == *old(self)
                    } else {
                        &&& r == Ok::<PriceScalar, OrderBookError>(clamp_rate(raw))
                        &&& final(self).current_rate == clamp_rate(raw)
                        &&& final(self).premium_index == premium
                        &&& final(self).next_funding_time == timestamp + FUNDING_INTERVAL_SECONDS
                        &&& final(self).interest_rate == old(self).interest_rate
                        &&& final(self).long_open_interest == old(self).long_open_interest
                        &&& final(self).short_open_interest == old(self).short_open_interest
                    },
                },
            },
    {
        let premium = match self.calculate_twap_premium(FUNDING_INTERVAL_SECONDS) {
            Ok(p) => p,
            Err(e) => return Err(e),
        };
        let raw = match premium.add_rounded(self.interest_rate) {
            Some(x) => x,
            None => return Err(OrderBookError::OverflowError),
        };
        let next = match timestamp.checked_add(FUNDING_INTERVAL_SECONDS) {
            Some(t) => t,
            None => return Err(OrderBookError::OverflowError),
        };
        let lo = PriceScalar::new(-1, 2);
        let hi = PriceScalar::new(1, 2);
        let rate = if raw.lt(&lo) {
            lo
        } else if raw.gt(&hi) {
            hi
        } else {
            raw
        };
        self.premium_index = premium;
        self.current_rate = rate;
        self.next_funding_time = next;
        Ok(rate)
    }

    pub fn update_open_interest(&mut self, long_oi: PriceScalar, short_oi: PriceScalar)
        requires
            old(self).wf(),
            long_oi.wf(),
            short_oi.wf(),
        ensures
            final(self).wf(),
            *final(self) == (FundingRate {
                long_open_interest: long_oi,
                short_open_interest: short_oi,
                ..*old(self)
            }),
    {
        self.long_open_interest = long_oi;
        self.short_open_interest = short_oi;
    }

    /// `(long − short) / (long + short)`, zero when both are zero.
    pub fn get_imbalance_ratio(&self) -> (r: Result<PriceScalar, OrderBookError>)
        requires
            self.wf(),
        ensures
            r == match rounded_sum_of(self.long_open_interest, self.short_open_interest) {
                None => Err(OrderBookError::OverflowError),
                Some(total) => if total.units() == 0 {
                    Ok(PriceScalar { mantissa: 0, scale: 0 })
                } else {
                    match rounded_difference_of(self.long_open_interest, self.short_open_interest) {
                        None => Err(OrderBookError::OverflowError),
                        Some(d) => match quotient_of(d, total) {
                            None => Err(OrderBookError::OverflowError),
                            Some(q) => Ok(q),
                        },
                    }
                },
            },
    {
        let total = match self.long_open_interest.add_rounded(self.short_open_interest) {
            Some(t) => t,
            None => return Err(OrderBookError::OverflowError),
        };
        if total.is_zero() {
            return Ok(PriceScalar::zero());
        }
        let d = match self.long_open_interest.sub_rounded(self.short_open_interest) {
            Some(d) => d,
            None => return Err(OrderBookError::OverflowError),
        };
        match d.checked_div(total) {
            Some(q) => Ok(q),
            None => Err(OrderBookError::OverflowError),
        }
    }

    /// A payment is due at or after the scheduled time.
    pub fn should_apply_funding(&self, timestamp: u64) -> (r: bool)
        ensures
            r == (timestamp >= self.next_funding_time),
    {
        timestamp >= self.next_funding_time
    }

    /// `−size · rate` for a long, `size · rate` for a short.
    pub fn calculate_funding_payment(&self, position_size: PriceScalar, is_long: bool) -> (r: Result<
        PriceScalar,
        OrderBookError,
    >)
        requires
            self.wf(),
            position_size.wf(),
        ensures
            r == funding_payment_of(position_size, is_long, self.current_rate),
            r matches Ok(x) ==> x.wf(),
            r is Ok ==> product_of(position_size, self.current_rate)->0.wf(),
    {
        let payment = match position_size.checked_mul(self.current_rate) {
            Some(p) => p,
            None => return Err(OrderBookError::OverflowError),
        };
        if is_long {
            Ok(payment.neg())
        } else {
            Ok(payment)
        }
    }
}

proof fn lemma_since_wf(s: Seq<PriceSample>, start: u64)
    requires
        forall|i: int| 0 <= i < s.len() ==> (#[trigger] s[i]).wf(),
    ensures
        forall|i: int|
            0 <= i < samples_since(s, start).len() ==> (#[trigger] samples_since(s, start)[i]).wf(),
    decreases s.len(),
{
    if s.len() > 0 {
        let t = s.drop_last();
        lemma_since_wf(t, start);
        let r = samples_since(t, start);
        if s.last().timestamp >= start {
            assert forall|i: int| 0 <= i < r.push(s.last()).len() implies (#[trigger] r.push(
                s.last(),
            )[i]).wf() by {
                if i < r.len() {
                    assert(r.push(s.last())[i] == r[i]);
                }
            }
        }
    }
}

impl Default for FundingRate {
    fn default() -> (r: FundingRate)
        ensures
            r.wf(),
            r.next_funding_time == FUNDING_INTERVAL_SECONDS,
            r.samples().len() == 0,
    {
        FundingRate::new()
    }
}

} // verus!
