use crate::decimal::{
    lemma_align_units, lemma_pow10_positive, lemma_spec_add, lemma_sub_same_value, product_of,
    quotient_of,
    rounded_difference_of, rounded_of, rounded_sum_of, spec_add, spec_neg, whole_u64, PriceScalar,
    MAX_SCALE,
};
use crate::funding::{funding_payment_of, FundingRate};
use crate::error::OrderBookError;
use std::collections::VecDeque;
use vstd::prelude::*;

verus! {

/// The direction of a perpetual-futures position.
#[derive(Clone, Copy, Debug, PartialEq, Eq, Structural)]
pub enum PositionSide {
    Long,
    Short,
}

/// An open position.
#[derive(Clone, Copy, Debug, PartialEq, Eq, Structural)]
pub struct Position {
    pub trader_id: u64,
    pub side: PositionSide,
    pub size: PriceScalar,
    pub entry_price: PriceScalar,
    pub margin: PriceScalar,
    pub leverage: PriceScalar,
    pub unrealized_pnl: PriceScalar,
    pub liquidation_price: PriceScalar,
    pub bankruptcy_price: PriceScalar,
}

impl Position {
    pub open spec fn wf(self) -> bool {
        &&& self.size.wf()
        &&& self.entry_price.wf()
        &&& self.margin.wf()
        &&& self.leverage.wf()
        &&& self.unrealized_pnl.wf()
        &&& self.liquidation_price.wf()
        &&& self.bankruptcy_price.wf()
    }
}

/// The larger of `x` and zero.
pub open spec fn floor_zero(x: PriceScalar) -> PriceScalar {
    if x.units() < 0 {
        PriceScalar { mantissa: 0, scale: 0 }
    } else {
        x
    }
}

/// `Ok` of the value, or an overflow error.
pub open spec fn checked(o: Option<PriceScalar>) -> Result<PriceScalar, OrderBookError> {
    match o {
        Some(x) => Ok(x),
        None => Err(OrderBookError::OverflowError),
    }
}

/// `entry · (1 ∓ (maintenance + fee) / leverage)`, clipped at zero.
pub open spec fn liquidation_price_of(
    maintenance: PriceScalar,
    fee: PriceScalar,
    p: Position,
) -> Result<PriceScalar, OrderBookError> {
    if p.leverage.units() <= 0 {
        Err(OrderBookError::InvalidLeverage(p.leverage))
    } else {
        match rounded_sum_of(maintenance, fee) {
            None => Err(OrderBookError::OverflowError),
            Some(ratio) => match quotient_of(ratio, p.leverage) {
                None => Err(OrderBookError::OverflowError),
                Some(q) => {
                    let one = PriceScalar { mantissa: 1, scale: 0 };
                    let factor = match p.side {
                        PositionSide::Long => rounded_difference_of(one, q),
                        PositionSide::Short => rounded_sum_of(one, q),
                    };
                    match factor {
                        None => Err(OrderBookError::OverflowError),
                        Some(f) => match product_of(p.entry_price, f) {
                            None => Err(OrderBookError::OverflowError),
                            Some(lp) => Ok(floor_zero(lp)),
                        },
                    }
                },
            },
        }
    }
}

/// `entry ∓ margin / size`, clipped at zero.
pub open spec fn bankruptcy_price_of(p: Position) -> Result<PriceScalar, OrderBookError> {
    if p.size.units() == 0 {
        Err(OrderBookError::InvalidQuantity)
    } else {
        match quotient_of(p.margin, p.size) {
            None => Err(OrderBookError::OverflowError),
            Some(q) => {
                let b = match p.side {
                    PositionSide::Long => rounded_difference_of(p.entry_price, q),
                    PositionSide::Short => rounded_sum_of(p.entry_price, q),
                };
                match b {
                    None => Err(OrderBookError::OverflowError),
                    Some(b) => Ok(floor_zero(b)),
                }
            },
        }
    }
}

/// A position is liquidated once the mark reaches its liquidation price.
pub open spec fn liquidates(p: Position, mark: PriceScalar) -> bool {
    match p.side {
        PositionSide::Long => mark.units() <= p.liquidation_price.units(),
        PositionSide::Short => mark.units() >= p.liquidation_price.units(),
    }
}

/// `(mark − entry) · size` for a long, its negation for a short.
pub open spec fn pnl_of(p: Position, mark: PriceScalar) -> Result<PriceScalar, OrderBookError> {
    match rounded_difference_of(mark, p.entry_price) {
        None => Err(OrderBookError::OverflowError),
        Some(diff) => match product_of(diff, p.size) {
            None => Err(OrderBookError::OverflowError),
            Some(x) => Ok(
                match p.side {
                    PositionSide::Long => x,
                    PositionSide::Short => spec_neg(x),
                },
            ),
        },
    }
}

/// `(margin + pnl) / (mark · size)`.
pub open spec fn margin_ratio_of(p: Position, mark: PriceScalar) -> Result<PriceScalar, OrderBookError> {
    match product_of(mark, p.size) {
        None => Err(OrderBookError::OverflowError),
        Some(value) => if value.units() == 0 {
            Err(OrderBookError::InvalidQuantity)
        } else {
            match pnl_of(p, mark) {
                Err(e) => Err(e),
                Ok(pnl) => match rounded_sum_of(p.margin, pnl) {
                    None => Err(OrderBookError::OverflowError),
                    Some(num) => checked(quotient_of(num, value)),
                },
            }
        },
    }
}

/// Liquidation parameters and the pure computations over a position.
#[derive(Clone, Copy, Debug)]
pub struct LiquidationEngine {
    pub maintenance_margin: PriceScalar,
    pub initial_margin: PriceScalar,
    pub liquidation_fee: PriceScalar,
    pub insurance_fund: PriceScalar,
    pub adl_threshold: PriceScalar,
}

impl LiquidationEngine {
    pub open spec fn wf(self) -> bool {
        &&& self.maintenance_margin.wf()
        &&& self.initial_margin.wf()
        &&& self.liquidation_fee.wf()
        &&& self.insurance_fund.wf()
        &&& self.adl_threshold.wf()
    }

    /// Maintenance margin 0.005, initial margin 0.01, liquidation fee 0.003, insurance fund
    /// 1 000 000, auto-deleveraging threshold 0.8.
    pub fn new() -> (r: LiquidationEngine)
        ensures
            r.wf(),
            r.maintenance_margin == (PriceScalar { mantissa: 5, scale: 3 }),
            r.initial_margin == (PriceScalar { mantissa: 1, scale: 2 }),
            r.liquidation_fee == (PriceScalar { mantissa: 3, scale: 3 }),
            r.insurance_fund == (PriceScalar { mantissa: 1000000, scale: 0 }),
            r.adl_threshold == (PriceScalar { mantissa: 8, scale: 1 }),
    {
        LiquidationEngine {
            maintenance_margin: PriceScalar::new(5, 3),
            initial_margin: PriceScalar::new(1, 2),
            liquidation_fee: PriceScalar::new(3, 3),
            insurance_fund: PriceScalar::new(1000000, 0),
            adl_threshold: PriceScalar::new(8, 1),
        }
    }

    /// The mark price at which the maintenance margin and the liquidation fee are used up.
    pub fn calculate_liquidation_price(&self, position: &Position) -> (r: Result<
        PriceScalar,
        OrderBookError,
    >)
        requires
            self.wf(),
            position.wf(),
        ensures
            r == liquidation_price_of(self.maintenance_margin, self.liquidation_fee, *position),
            r matches Ok(x) ==> x.wf(),
    {
        if !position.leverage.is_positive() {
            return Err(OrderBookError::InvalidLeverage(position.leverage));
        }
        let ratio = match self.maintenance_margin.add_rounded(self.liquidation_fee) {
            Some(x) => x,
            None => return Err(OrderBookError::OverflowError),
        };
        let q = match ratio.checked_div(position.leverage) {
            Some(x) => x,
            None => return Err(OrderBookError::OverflowError),
        };
        let one = PriceScalar::one();
        let factor = match position.side {
            PositionSide::Long => one.sub_rounded(q),
            PositionSide::Short => one.add_rounded(q),
        };
        let f = match factor {
            Some(x) => x,
            None => return Err(OrderBookError::OverflowError),
        };
        let lp = match position.entry_price.checked_mul(f) {
            Some(x) => x,
            None => return Err(OrderBookError::OverflowError),
        };
        Ok(clip_at_zero(lp))
    }

    /// The mark price at which the whole margin is lost.
    pub fn calculate_bankruptcy_price(&self, position: &Position) -> (r: Result<
        PriceScalar,
        OrderBookError,
    >)
        requires
            position.wf(),
        ensures
            r == bankruptcy_price_of(*position),
            r matches Ok(x) ==> x.wf(),
    {
        if position.size.is_zero() {
            return Err(OrderBookError::InvalidQuantity);
        }
        let q = match position.margin.checked_div(position.size) {
            Some(x) => x,
            None => return Err(OrderBookError::OverflowError),
        };
        let b = match position.side {
            PositionSide::Long => position.entry_price.sub_rounded(q),
            PositionSide::Short => position.entry_price.add_rounded(q),
        };
        match b {
            Some(x) => Ok(clip_at_zero(x)),
            None => Err(OrderBookError::OverflowError),
        }
    }

    /// A long is liquidated at or below its liquidation price, a short at or above it.
    pub fn should_liquidate(&self, position: &Position, mark_price: PriceScalar) -> (r: bool)
        requires
            position.wf(),
            mark_price.wf(),
        ensures
            r == liquidates(*position, mark_price),
    {
        match position.side {
            PositionSide::Long => mark_price.le(&position.liquidation_price),
            PositionSide::Short => mark_price.ge(&position.liquidation_price),
        }
    }

    /// The unrealized profit of a position at `mark_price`.
    pub fn calculate_pnl(position: &Position, mark_price: PriceScalar) -> (r: Result<
        PriceScalar,
        OrderBookError,
    >)
        requires
            position.wf(),
            mark_price.wf(),
        ensures
            r == pnl_of(*position, mark_price),
            r matches Ok(x) ==> x.wf(),
            mark_price.units() == position.entry_price.units() ==> (r matches Ok(x) && x.units() == 0),
    {
        proof {
            if mark_price.units() == position.entry_price.units() {
                lemma_sub_same_value(mark_price, position.entry_price);
            }
        }
        let diff = match mark_price.sub_rounded(position.entry_price) {
            Some(x) => x,
            None => return Err(OrderBookError::OverflowError),
        };
        let product = match diff.checked_mul(position.size) {
            Some(x) => x,
            None => return Err(OrderBookError::OverflowError),
        };
        match position.side {
            PositionSide::Long => Ok(product),
            PositionSide::Short => Ok(product.neg()),
        }
    }

    /// Equity over position value at `mark_price`.
    pub fn calculate_margin_ratio(&self, position: &Position, mark_price: PriceScalar) -> (r:
        Result<PriceScalar, OrderBookError>)
        requires
            position.wf(),
            mark_price.wf(),
        ensures
            r == margin_ratio_of(*position, mark_price),
    {
        let value = match mark_price.checked_mul(position.size) {
            Some(x) => x,
            None => return Err(OrderBookError::OverflowError),
        };
        if value.is_zero() {
            return Err(OrderBookError::InvalidQuantity);
        }
        let pnl = match Self::calculate_pnl(position, mark_price) {
            Ok(x) => x,
            Err(e) => return Err(e),
        };
        let num = match position.margin.add_rounded(pnl) {
            Some(x) => x,
            None => return Err(OrderBookError::OverflowError),
        };
        match num.checked_div(value) {
            Some(x) => Ok(x),
            None => Err(OrderBookError::OverflowError),
        }
    }

    /// Auto-deleveraging is due when the insurance fund covers less than the threshold of a
    /// total position value of 10 000 000.
    pub fn should_trigger_adl(&self) -> (r: bool)
        requires
            self.wf(),
        ensures
            r == match quotient_of(
                self.insurance_fund,
                PriceScalar { mantissa: 10000000, scale: 0 },
            ) {
                Some(q) => q.units() < self.adl_threshold.units(),
                None => false,
            },
    {
        let total_positions_value = PriceScalar::new(10000000, 0);
        match self.insurance_fund.checked_div(total_positions_value) {
            Some(q) => q.lt(&self.adl_threshold),
            None => false,
        }
    }
}

/// `x`, or zero when `x` is negative.
fn clip_at_zero(x: PriceScalar) -> (r: PriceScalar)
    requires
        x.wf(),
    ensures
        r == floor_zero(x),
        r.wf(),
{
    if x.is_negative() {
        PriceScalar::zero()
    } else {
        x
    }
}

/// Trading fees.
#[derive(Clone, Copy, Debug)]
pub struct FeeStructure {
    pub maker_fee: PriceScalar,
    pub taker_fee: PriceScalar,
    pub liquidation_fee: PriceScalar,
    pub funding_interval: u64,
}

impl FeeStructure {
    pub open spec fn wf(self) -> bool {
        self.maker_fee.wf() && self.taker_fee.wf() && self.liquidation_fee.wf()
    }

    /// Maker rebate 0.0001, taker fee 0.0005, liquidation fee 0.003, funding every 8 hours.
    pub fn new() -> (r: FeeStructure)
        ensures
            r.wf(),
            r.maker_fee == (PriceScalar { mantissa: -1i128, scale: 4 }),
            r.taker_fee == (PriceScalar { mantissa: 5, scale: 4 }),
            r.liquidation_fee == (PriceScalar { mantissa: 3, scale: 3 }),
            r.funding_interval == 28800,
    {
        FeeStructure {
            maker_fee: PriceScalar::new(-1, 4),
            taker_fee: PriceScalar::new(5, 4),
            liquidation_fee: PriceScalar::new(3, 3),
            funding_interval: 28800,
        }
    }

    /// `notional · fee rate`; negative for a maker rebate.
    pub fn calculate_fee(&self, is_maker: bool, notional_value: PriceScalar) -> (r: Result<
        PriceScalar,
        OrderBookError,
    >)
        requires
            self.wf(),
            notional_value.wf(),
        ensures
            r == checked(
                product_of(
                    notional_value,
                    if is_maker {
                        self.maker_fee
                    } else {
                        self.taker_fee
                    },
                ),
            ),
    {
        let fee_rate = if is_maker {
            self.maker_fee
        } else {
            self.taker_fee
        };
        match notional_value.checked_mul(fee_rate) {
            Some(x) => Ok(x),
            None => Err(OrderBookError::OverflowError),
        }
    }
}

/// A buffer against losses beyond bankruptcy.
#[derive(Clone, Copy, Debug)]
pub struct InsuranceFund {
    pub balance: PriceScalar,
    pub target_ratio: PriceScalar,
    pub contributions: PriceScalar,
    pub payouts: PriceScalar,
}

impl InsuranceFund {
    pub open spec fn wf(self) -> bool {
        self.balance.wf() && self.target_ratio.wf() && self.contributions.wf() && self.payouts.wf()
    }

    pub fn new(initial_balance: PriceScalar) -> (r: InsuranceFund)
        requires
            initial_balance.wf(),
        ensures
            r.wf(),
            r.balance == initial_balance,
            r.target_ratio == (PriceScalar { mantissa: 1, scale: 3 }),
            r.contributions.units() == 0,
            r.payouts.units() == 0,
    {
        InsuranceFund {
            balance: initial_balance,
            target_ratio: PriceScalar::new(1, 3),
            contributions: PriceScalar::zero(),
            payouts: PriceScalar::zero(),
        }
    }

    /// Adds `amount` to the balance and to the contributions with the decimal crate's checked
    /// sum (exact whenever the exact sum fits); on an overflow nothing changes.
    pub fn add_contribution(&mut self, amount: PriceScalar) -> (r: Result<(), OrderBookError>)
        requires
            old(self).wf(),
            amount.wf(),
        ensures
            final(self).wf(),
            match (rounded_sum_of(old(self).balance, amount), rounded_sum_of(old(self).contributions, amount)) {
                (Some(b), Some(c)) => r is Ok && *final(self) == (InsuranceFund {
                    balance: b,
                    contributions: c,
                    ..*old(self)
                }),
                _ => r == Err::<(), OrderBookError>(OrderBookError::OverflowError) && *final(self)
                    == *old(self),
            },
    {
        let balance = match self.balance.add_rounded(amount) {
            Some(x) => x,
            None => return Err(OrderBookError::OverflowError),
        };
        let contributions = match self.contributions.add_rounded(amount) {
            Some(x) => x,
            None => return Err(OrderBookError::OverflowError),
        };
        self.balance = balance;
        self.contributions = contributions;
        Ok(())
    }

    /// Pays `amount` out when the balance covers it (`Ok(true)`), else changes nothing
    /// (`Ok(false)`). Balance and payouts move by the decimal crate's checked difference and
    /// sum; on an overflow nothing changes.
    pub fn process_payout(&mut self, amount: PriceScalar) -> (r: Result<bool, OrderBookError>)
        requires
            old(self).wf(),
            amount.wf(),
        ensures
            final(self).wf(),
            old(self).balance.units() < amount.units() ==> r == Ok::<bool, OrderBookError>(false)
                && *final(self) == *old(self),
            old(self).balance.units() >= amount.units() ==> match (
                rounded_difference_of(old(self).balance, amount),
                rounded_sum_of(old(self).payouts, amount),
            ) {
                (Some(b), Some(p)) => r == Ok::<bool, OrderBookError>(true) && *final(self) == (
                InsuranceFund { balance: b, payouts: p, ..*old(self) }),
                _ => r == Err::<bool, OrderBookError>(OrderBookError::OverflowError) && *final(self) == *old(self),
            },
    {
        if self.balance.ge(&amount) {
            let balance = match self.balance.sub_rounded(amount) {
                Some(x) => x,
                None => return Err(OrderBookError::OverflowError),
            };
            let payouts = match self.payouts.add_rounded(amount) {
                Some(x) => x,
                None => return Err(OrderBookError::OverflowError),
            };
            self.balance = balance;
            self.payouts = payouts;
            Ok(true)
        } else {
            Ok(false)
        }
    }
}

/// What a position adds to the open interest of `side`.
pub open spec fn side_size(p: Position, side: PositionSide) -> int {
    if p.side == side {
        p.size.units()
    } else {
        0
    }
}

/// Open interest of `side`: the sum of the sizes of its positions.
pub open spec fn interest(s: Seq<Position>, side: PositionSide) -> int
    decreases s.len(),
{
    if s.len() == 0 {
        0
    } else {
        interest(s.drop_last(), side) + side_size(s.last(), side)
    }
}

pub proof fn lemma_interest_concat(a: Seq<Position>, b: Seq<Position>, side: PositionSide)
    ensures
        interest(a + b, side) == interest(a, side) + interest(b, side),
    decreases b.len(),
{
    if b.len() == 0 {
        assert(a + b =~= a);
    } else {
        assert((a + b).drop_last() =~= a + b.drop_last());
        lemma_interest_concat(a, b.drop_last(), side);
    }
}

proof fn lemma_interest_single(x: Position, side: PositionSide)
    ensures
        interest(seq![x], side) == side_size(x, side),
{
    assert(seq![x].drop_last() =~= Seq::<Position>::empty());
    assert(interest(Seq::<Position>::empty(), side) == 0);
}

proof fn lemma_interest_nonneg(s: Seq<Position>, side: PositionSide)
    requires
        forall|i: int| 0 <= i < s.len() ==> (#[trigger] s[i]).size.units() > 0,
    ensures
        interest(s, side) >= 0,
    decreases s.len(),
{
    if s.len() > 0 {
        lemma_interest_nonneg(s.drop_last(), side);
    }
}

/// Splits `s` around index `i`.
proof fn lemma_interest_split(s: Seq<Position>, i: int, side: PositionSide)
    requires
        0 <= i < s.len(),
    ensures
        interest(s, side) == interest(s.subrange(0, i), side) + side_size(s[i], side) + interest(
            s.subrange(i + 1, s.len() as int),
            side,
        ),
{
    let pre = s.subrange(0, i);
    let post = s.subrange(i + 1, s.len() as int);
    assert(s =~= pre + seq![s[i]] + post);
    lemma_interest_concat(pre + seq![s[i]], post, side);
    lemma_interest_concat(pre, seq![s[i]], side);
    lemma_interest_single(s[i], side);
}

/// Removing a size that is part of a total never needs more digits than the total has.
proof fn lemma_sub_fits(total: PriceScalar, x: PriceScalar)
    requires
        total.wf(),
        x.wf(),
        0 <= x.units() <= total.units(),
        x.scale <= total.scale,
    ensures
        spec_add(total, spec_neg(x)) is Some,
        spec_add(total, spec_neg(x))->0.scale == total.scale,
        spec_add(total, spec_neg(x))->0.units() == total.units() - x.units(),
{
    let s = total.scale;
    lemma_align_units(total, s);
    lemma_align_units(x, s);
    lemma_spec_add(total, x);
    let px = crate::decimal::pow10((s - x.scale) as nat);
    let p = crate::decimal::pow10((MAX_SCALE - s) as nat);
    lemma_pow10_positive((MAX_SCALE - s) as nat);
    let m = total.mantissa * 1 + (-x.mantissa) * px;
    assert(crate::decimal::pow10(0) == 1);
    assert(m * p == total.units() - x.units()) by (nonlinear_arith)
        requires
            total.units() == (total.mantissa * 1) * p,
            x.units() == (x.mantissa * px) * p,
            m == total.mantissa * 1 + (-x.mantissa) * px,
    ;
    assert(0 <= m <= total.mantissa) by (nonlinear_arith)
        requires
            m * p == total.units() - x.units(),
            total.units() == total.mantissa * p,
            0 <= x.units() <= total.units(),
            p >= 1,
    ;
}

/// The index of the first position whose trader id is not below `id`.
pub open spec fn slot(s: Seq<Position>, id: u64) -> int
    decreases s.len(),
{
    if s.len() == 0 || s[0].trader_id >= id {
        0
    } else {
        1 + slot(s.drop_first(), id)
    }
}

pub open spec fn holds(s: Seq<Position>, id: u64) -> bool {
    slot(s, id) < s.len() && s[slot(s, id)].trader_id == id
}

/// `s` with `p` in place of the position of its trader, or added in id order.
pub open spec fn upsert(s: Seq<Position>, p: Position) -> Seq<Position> {
    if holds(s, p.trader_id) {
        s.update(slot(s, p.trader_id), p)
    } else {
        s.insert(slot(s, p.trader_id), p)
    }
}

proof fn lemma_slot(s: Seq<Position>, id: u64)
    ensures
        0 <= slot(s, id) <= s.len(),
        forall|i: int| 0 <= i < slot(s, id) ==> (#[trigger] s[i]).trader_id < id,
        slot(s, id) < s.len() ==> s[slot(s, id)].trader_id >= id,
    decreases s.len(),
{
    if s.len() > 0 && s[0].trader_id < id {
        let t = s.drop_first();
        lemma_slot(t, id);
        assert forall|i: int| 0 <= i < slot(s, id) implies (#[trigger] s[i]).trader_id < id by {
            if i > 0 {
                assert(s[i] == t[i - 1]);
            }
        }
    }
}

/// The state of a position manager.
pub struct ManagerView {
    /// Open positions in increasing trader id.
    pub positions: Seq<Position>,
    pub total_long_interest: PriceScalar,
    pub total_short_interest: PriceScalar,
    pub max_leverage: PriceScalar,
    pub max_position_size: PriceScalar,
}

impl ManagerView {
    pub open spec fn wf(self) -> bool {
        &&& forall|i: int, j: int|
            0 <= i < j < self.positions.len() ==> (#[trigger] self.positions[i]).trader_id
                < (#[trigger] self.positions[j]).trader_id
        &&& forall|i: int|
            0 <= i < self.positions.len() ==> (#[trigger] self.positions[i]).wf()
                && self.positions[i].size.units() > 0
        &&& self.total_long_interest.wf()
        &&& self.total_short_interest.wf()
        &&& self.max_leverage.wf()
        &&& self.max_position_size.wf()
        &&& self.total_long_interest.units() == interest(self.positions, PositionSide::Long)
        &&& self.total_short_interest.units() == interest(self.positions, PositionSide::Short)
        &&& forall|i: int|
            0 <= i < self.positions.len() ==> ((#[trigger] self.positions[i]).side
                == PositionSide::Long ==> self.positions[i].size.scale
                <= self.total_long_interest.scale) && (self.positions[i].side == PositionSide::Short
                ==> self.positions[i].size.scale <= self.total_short_interest.scale)
    }
}

/// The position an open request builds, or the validation error, in the order of the checks.
pub open spec fn opened(
    m: ManagerView,
    trader_id: u64,
    side: PositionSide,
    size: PriceScalar,
    entry_price: PriceScalar,
    margin: PriceScalar,
    e: LiquidationEngine,
) -> Result<Position, OrderBookError> {
    let zero = PriceScalar { mantissa: 0, scale: 0 };
    if size.units() <= 0 || size.units() > m.max_position_size.units() {
        Err(OrderBookError::InvalidQuantity)
    } else if margin.units() <= 0 {
        Err(OrderBookError::InsufficientMargin { required: 1, provided: 0 })
    } else {
        match product_of(entry_price, size) {
            None => Err(OrderBookError::OverflowError),
            Some(notional) => match quotient_of(notional, margin) {
                None => Err(OrderBookError::OverflowError),
                Some(leverage) => if leverage.units() <= 0 || leverage.units() > m.max_leverage.units() {
                    Err(OrderBookError::InvalidLeverage(leverage))
                } else {
                    match product_of(notional, e.initial_margin) {
                        None => Err(OrderBookError::OverflowError),
                        Some(raw) => {
                            let required = rounded_of(raw, 2);
                            if margin.units() < required.units() {
                                Err(
                                    OrderBookError::InsufficientMargin {
                                        required: whole_u64(required),
                                        provided: whole_u64(margin),
                                    },
                                )
                            } else {
                                let base = Position {
                                    trader_id,
                                    side,
                                    size,
                                    entry_price,
                                    margin,
                                    leverage,
                                    unrealized_pnl: zero,
                                    liquidation_price: zero,
                                    bankruptcy_price: zero,
                                };
                                match liquidation_price_of(e.maintenance_margin, e.liquidation_fee, base) {
                                    Err(x) => Err(x),
                                    Ok(lp) => match bankruptcy_price_of(base) {
                                        Err(x) => Err(x),
                                        Ok(bp) => Ok(
                                            Position {
                                                liquidation_price: lp,
                                                bankruptcy_price: bp,
                                                ..base
                                            },
                                        ),
                                    },
                                }
                            }
                        },
                    }
                },
            },
        }
    }
}

/// The interest totals once `p` replaces its trader's position, if any.
pub open spec fn interest_after(m: ManagerView, p: Position) -> Option<(PriceScalar, PriceScalar)> {
    let l = m.total_long_interest;
    let s = m.total_short_interest;
    let (l0, s0) = if holds(m.positions, p.trader_id) {
        let q = m.positions[slot(m.positions, p.trader_id)];
        if q.side == PositionSide::Long {
            (spec_add(l, spec_neg(q.size)), Some(s))
        } else {
            (Some(l), spec_add(s, spec_neg(q.size)))
        }
    } else {
        (Some(l), Some(s))
    };
    match (l0, s0) {
        (Some(l1), Some(s1)) => if p.side == PositionSide::Long {
            match spec_add(l1, p.size) {
                Some(l2) => Some((l2, s1)),
                None => None,
            }
        } else {
            match spec_add(s1, p.size) {
                Some(s2) => Some((l1, s2)),
                None => None,
            }
        },
        _ => None,
    }
}

/// A position with its unrealized profit at `mark`.
pub open spec fn with_pnl(p: Position, mark: PriceScalar) -> Position {
    Position {
        unrealized_pnl: match pnl_of(p, mark) {
            Ok(v) => v,
            Err(_) => p.unrealized_pnl,
        },
        ..p
    }
}

/// Trader ids of the positions that `mark` liquidates, in order.
pub open spec fn liquidated_ids(s: Seq<Position>, mark: PriceScalar) -> Seq<u64>
    decreases s.len(),
{
    if s.len() == 0 {
        Seq::empty()
    } else if liquidates(s.last(), mark) {
        liquidated_ids(s.drop_last(), mark).push(s.last().trader_id)
    } else {
        liquidated_ids(s.drop_last(), mark)
    }
}

/// The positions that `mark` does not liquidate, with their profit at `mark`.
pub open spec fn survivors(s: Seq<Position>, mark: PriceScalar) -> Seq<Position>
    decreases s.len(),
{
    if s.len() == 0 {
        Seq::empty()
    } else if liquidates(s.last(), mark) {
        survivors(s.drop_last(), mark)
    } else {
        survivors(s.drop_last(), mark).push(with_pnl(s.last(), mark))
    }
}

/// The margin of `p` after one funding payment at `rate`.
pub open spec fn funded_margin(p: Position, rate: PriceScalar) -> Option<PriceScalar> {
    match funding_payment_of(p.size, p.side == PositionSide::Long, rate) {
        Ok(pay) => rounded_sum_of(p.margin, pay),
        Err(_) => None,
    }
}

/// Open positions keyed by trader, with the long and short open interest.
pub struct PositionManager {
    positions: Vec<Position>,
    total_long_interest: PriceScalar,
    total_short_interest: PriceScalar,
    max_leverage: PriceScalar,
    max_position_size: PriceScalar,
}

impl View for PositionManager {
    type V = ManagerView;

    closed spec fn view(&self) -> ManagerView {
        ManagerView {
            positions: self.positions@,
            total_long_interest: self.total_long_interest,
            total_short_interest: self.total_short_interest,
            max_leverage: self.max_leverage,
            max_position_size: self.max_position_size,
        }
    }
}

proof fn lemma_slot_at(s: Seq<Position>, id: u64, i: int)
    requires
        0 <= i <= s.len(),
        forall|k: int| 0 <= k < i ==> (#[trigger] s[k]).trader_id < id,
        i < s.len() ==> s[i].trader_id >= id,
    ensures
        slot(s, id) == i,
    decreases i,
{
    if i > 0 {
        let t = s.drop_first();
        assert forall|k: int| 0 <= k < i - 1 implies (#[trigger] t[k]).trader_id < id by {
            assert(t[k] == s[k + 1]);
        }
        lemma_slot_at(t, id, i - 1);
    }
}

/// The total of `side` after a position of `q` leaves it is still exact and keeps its scale.
proof fn lemma_leave_total(m: ManagerView, i: int)
    requires
        m.wf(),
        0 <= i < m.positions.len(),
    ensures
        ({
            let q = m.positions[i];
            let total = if q.side == PositionSide::Long {
                m.total_long_interest
            } else {
                m.total_short_interest
            };
            &&& spec_add(total, spec_neg(q.size)) is Some
            &&& spec_add(total, spec_neg(q.size))->0.scale == total.scale
            &&& spec_add(total, spec_neg(q.size))->0.units() == total.units() - q.size.units()
        }),
{
    let s = m.positions;
    let q = s[i];
    lemma_interest_split(s, i, q.side);
    let pre = s.subrange(0, i);
    let post = s.subrange(i + 1, s.len() as int);
    assert forall|k: int| 0 <= k < pre.len() implies (#[trigger] pre[k]).size.units() > 0 by {
        assert(pre[k] == s[k]);
    }
    assert forall|k: int| 0 <= k < post.len() implies (#[trigger] post[k]).size.units() > 0 by {
        assert(post[k] == s[i + 1 + k]);
    }
    lemma_interest_nonneg(pre, q.side);
    lemma_interest_nonneg(post, q.side);
    if q.side == PositionSide::Long {
        lemma_sub_fits(m.total_long_interest, q.size);
    } else {
        lemma_sub_fits(m.total_short_interest, q.size);
    }
}

/// Where the old positions sit after `p` is put in place.
pub open spec fn upsert_source(s: Seq<Position>, p: Position, k: int) -> int {
    if holds(s, p.trader_id) || k < slot(s, p.trader_id) {
        k
    } else {
        k - 1
    }
}

#[verifier::spinoff_prover]
proof fn lemma_upsert_shape(s: Seq<Position>, p: Position)
    requires
        forall|a: int, b: int|
            0 <= a < b < s.len() ==> (#[trigger] s[a]).trader_id < (#[trigger] s[b]).trader_id,
    ensures
        ({
            let new = upsert(s, p);
            let i = slot(s, p.trader_id);
            &&& 0 <= i <= s.len()
            &&& new.len() == if holds(s, p.trader_id) {
                s.len() as int
            } else {
                s.len() + 1 as int
            }
            &&& new[i] == p
            &&& forall|k: int|
                0 <= k < new.len() && k != i ==> 0 <= upsert_source(s, p, k) < s.len()
                    && #[trigger] new[k] == s[upsert_source(s, p, k)]
            &&& forall|a: int, b: int|
                0 <= a < b < new.len() ==> (#[trigger] new[a]).trader_id < (#[trigger] new[b]).trader_id
        }),
{
    let new = upsert(s, p);
    let i = slot(s, p.trader_id);
    lemma_slot(s, p.trader_id);
    if holds(s, p.trader_id) {
        assert forall|a: int, b: int| 0 <= a < b < new.len() implies (#[trigger] new[a]).trader_id
            < (#[trigger] new[b]).trader_id by {
            assert(s[a].trader_id < s[b].trader_id);
        }
    } else {
        s.insert_ensures(i, p);
        assert forall|a: int, b: int| 0 <= a < b < new.len() implies (#[trigger] new[a]).trader_id
            < (#[trigger] new[b]).trader_id by {
            if b < i {
                assert(new[a] == s[a] && new[b] == s[b]);
            } else if b == i {
                assert(new[a] == s[a]);
            } else if a < i {
                assert(new[a] == s[a] && new[b] == s[b - 1]);
                assert(s[i].trader_id <= s[b - 1].trader_id || b - 1 == i);
            } else if a == i {
                assert(new[b] == s[b - 1]);
                assert(s[i].trader_id <= s[b - 1].trader_id || b - 1 == i);
            } else {
                assert(new[a] == s[a - 1] && new[b] == s[b - 1]);
            }
        }
        assert forall|k: int| 0 <= k < new.len() && k != i implies 0 <= upsert_source(s, p, k)
            < s.len() && #[trigger] new[k] == s[upsert_source(s, p, k)] by {
            if k < i {
                assert(new[k] == s[k]);
            } else {
                assert(new[k] == s[k - 1]);
            }
        }
    }
}

#[verifier::spinoff_prover]
proof fn lemma_upsert_interest(s: Seq<Position>, p: Position, side: PositionSide)
    ensures
        interest(upsert(s, p), side) == interest(s, side) - (if holds(s, p.trader_id) {
            side_size(s[slot(s, p.trader_id)], side)
        } else {
            0
        }) + side_size(p, side),
{
    let i = slot(s, p.trader_id);
    let n = s.len() as int;
    lemma_slot(s, p.trader_id);
    let new = upsert(s, p);
    let pre = s.subrange(0, i);
    lemma_interest_single(p, side);
    if holds(s, p.trader_id) {
        lemma_interest_split(s, i, side);
        lemma_interest_split(new, i, side);
        assert(new.subrange(0, i) =~= pre);
        assert(new.subrange(i + 1, n) =~= s.subrange(i + 1, n));
    } else {
        let post = s.subrange(i, n);
        assert(new =~= pre + seq![p] + post);
        assert(s =~= pre + post);
        lemma_interest_concat(pre + seq![p], post, side);
        lemma_interest_concat(pre, seq![p], side);
        lemma_interest_concat(pre, post, side);
    }
}

/// Replacing or adding a position keeps the manager well formed when the totals fit.
#[verifier::spinoff_prover]
proof fn lemma_upsert_wf(m: ManagerView, p: Position)
    requires
        m.wf(),
        p.wf(),
        p.size.units() > 0,
        interest_after(m, p) is Some,
    ensures
        ({
            let (l, sh) = interest_after(m, p)->0;
            (ManagerView {
                positions: upsert(m.positions, p),
                total_long_interest: l,
                total_short_interest: sh,
                max_leverage: m.max_leverage,
                max_position_size: m.max_position_size,
            }).wf()
        }),
{
    let s = m.positions;
    let i = slot(s, p.trader_id);
    lemma_slot(s, p.trader_id);
    let (l, sh) = interest_after(m, p)->0;
    let new = upsert(s, p);
    let lo = m.total_long_interest;
    let so = m.total_short_interest;
    let (l1, s1) = if holds(s, p.trader_id) {
        lemma_leave_total(m, i);
        if s[i].side == PositionSide::Long {
            (spec_add(lo, spec_neg(s[i].size))->0, so)
        } else {
            (lo, spec_add(so, spec_neg(s[i].size))->0)
        }
    } else {
        (lo, so)
    };
    assert(l1.wf() && s1.wf() && l1.scale == lo.scale && s1.scale == so.scale) by {
        if holds(s, p.trader_id) {
            lemma_spec_add(lo, s[i].size);
            lemma_spec_add(so, s[i].size);
        }
    }
    lemma_spec_add(l1, p.size);
    lemma_spec_add(s1, p.size);
    lemma_upsert_shape(s, p);
    lemma_upsert_interest(s, p, PositionSide::Long);
    lemma_upsert_interest(s, p, PositionSide::Short);
    assert forall|k: int| 0 <= k < new.len() implies (#[trigger] new[k]).wf() && new[k].size.units() > 0
        && (new[k].side == PositionSide::Long ==> new[k].size.scale <= l.scale) && (new[k].side
        == PositionSide::Short ==> new[k].size.scale <= sh.scale) by {
        if k != i {
            assert(new[k] == s[upsert_source(s, p, k)]);
        }
    }
}

/// Removing the position at `i` keeps the manager well formed.
proof fn lemma_remove_wf(m: ManagerView, i: int)
    requires
        m.wf(),
        0 <= i < m.positions.len(),
    ensures
        ({
            let s = m.positions;
            let q = s[i];
            let l = if q.side == PositionSide::Long {
                spec_add(m.total_long_interest, spec_neg(q.size))->0
            } else {
                m.total_long_interest
            };
            let sh = if q.side == PositionSide::Short {
                spec_add(m.total_short_interest, spec_neg(q.size))->0
            } else {
                m.total_short_interest
            };
            (ManagerView {
                positions: s.remove(i),
                total_long_interest: l,
                total_short_interest: sh,
                max_leverage: m.max_leverage,
                max_position_size: m.max_position_size,
            }).wf()
        }),
{
    let s = m.positions;
    let n = s.len() as int;
    let q = s[i];
    lemma_leave_total(m, i);
    lemma_spec_add(m.total_long_interest, q.size);
    lemma_spec_add(m.total_short_interest, q.size);
    let new = s.remove(i);
    s.remove_ensures(i);
    let pre = s.subrange(0, i);
    let post = s.subrange(i + 1, n);
    assert(new =~= pre + post);
    lemma_interest_split(s, i, PositionSide::Long);
    lemma_interest_split(s, i, PositionSide::Short);
    lemma_interest_concat(pre, post, PositionSide::Long);
    lemma_interest_concat(pre, post, PositionSide::Short);
    assert forall|a: int, b: int| 0 <= a < b < new.len() implies (#[trigger] new[a]).trader_id
        < (#[trigger] new[b]).trader_id by {
        if b < i {
            assert(new[a] == s[a] && new[b] == s[b]);
        } else if a < i {
            assert(new[a] == s[a] && new[b] == s[b + 1]);
        } else {
            assert(new[a] == s[a + 1] && new[b] == s[b + 1]);
        }
    }
    assert forall|k: int| 0 <= k < new.len() implies (#[trigger] new[k]) == s[if k < i {
        k
    } else {
        k + 1
    }] by {}
}

impl PositionManager {
    pub open spec fn wf(&self) -> bool {
        self@.wf()
    }

    /// No positions; leverage capped at 100, position size at 1 000 000.
    pub fn new() -> (r: PositionManager)
        ensures
            r.wf(),
            r@.positions.len() == 0,
            r@.total_long_interest.units() == 0,
            r@.total_short_interest.units() == 0,
            r@.max_leverage == (PriceScalar { mantissa: 100, scale: 0 }),
            r@.max_position_size == (PriceScalar { mantissa: 1000000, scale: 0 }),
    {
        PositionManager {
            positions: Vec::new(),
            total_long_interest: PriceScalar::zero(),
            total_short_interest: PriceScalar::zero(),
            max_leverage: PriceScalar::new(100, 0),
            max_position_size: PriceScalar::new(1000000, 0),
        }
    }

    fn find_slot(&self, trader_id: u64) -> (r: usize)
        ensures
            r == slot(self@.positions, trader_id),
            r <= self@.positions.len(),
    {
        let mut i: usize = 0;
        while i < self.positions.len() && self.positions[i].trader_id < trader_id
            invariant
                i <= self.positions.len(),
                forall|k: int| 0 <= k < i ==> (#[trigger] self.positions@[k]).trader_id < trader_id,
            decreases self.positions.len() - i,
        {
            i = i + 1;
        }
        proof {
            lemma_slot_at(self.positions@, trader_id, i as int);
        }
        i
    }

    /// The open position of `trader_id`, if any.
    pub fn position(&self, trader_id: u64) -> (r: Option<Position>)
        ensures
            r == (if holds(self@.positions, trader_id) {
                Some(self@.positions[slot(self@.positions, trader_id)])
            } else {
                None
            }),
    {
        let i = self.find_slot(trader_id);
        if i < self.positions.len() && self.positions[i].trader_id == trader_id {
            Some(self.positions[i])
        } else {
            None
        }
    }

    /// The number of open positions.
    pub fn position_count(&self) -> (r: usize)
        ensures
            r == self@.positions.len(),
    {
        self.positions.len()
    }

    /// The sum of the sizes of the long positions.
    pub fn total_long_interest(&self) -> (r: PriceScalar)
        ensures
            r == self@.total_long_interest,
    {
        self.total_long_interest
    }

    /// The sum of the sizes of the short positions.
    pub fn total_short_interest(&self) -> (r: PriceScalar)
        ensures
            r == self@.total_short_interest,
    {
        self.total_short_interest
    }

    /// Opens a position for `trader_id` after the checks of `opened`, replacing any position
    /// the trader had and moving the open interest with it.
    pub fn open_position(
        &mut self,
        trader_id: u64,
        side: PositionSide,
        size: PriceScalar,
        entry_price: PriceScalar,
        margin: PriceScalar,
        liquidation_engine: &LiquidationEngine,
    ) -> (r: Result<Position, OrderBookError>)
        requires
            old(self).wf(),
            size.wf(),
            entry_price.wf(),
            margin.wf(),
            liquidation_engine.wf(),
        ensures
            final(self).wf(),
            match opened(old(self)@, trader_id, side, size, entry_price, margin, *liquidation_engine) {
                Err(e) => r == Err::<Position, OrderBookError>(e) && final(self)@ == old(self)@,
                Ok(p) => match interest_after(old(self)@, p) {
                    Some((l, s)) => r == Ok::<Position, OrderBookError>(p) && final(self)@ == (
                    ManagerView {
                        positions: upsert(old(self)@.positions, p),
                        total_long_interest: l,
                        total_short_interest: s,
                        max_leverage: old(self)@.max_leverage,
                        max_position_size: old(self)@.max_position_size,
                    }),
                    None => r == Err::<Position, OrderBookError>(OrderBookError::OverflowError)
                        && final(self)@ == old(self)@,
                },
            },
    {
        if !size.is_positive() || size.gt(&self.max_position_size) {
            return Err(OrderBookError::InvalidQuantity);
        }
        if !margin.is_positive() {
            return Err(OrderBookError::InsufficientMargin { required: 1, provided: 0 });
        }
        let notional = match entry_price.checked_mul(size) {
            Some(x) => x,
            None => return Err(OrderBookError::OverflowError),
        };
        let leverage = match notional.checked_div(margin) {
            Some(x) => x,
            None => return Err(OrderBookError::OverflowError),
        };
        if !leverage.is_positive() || leverage.gt(&self.max_leverage) {
            return Err(OrderBookError::InvalidLeverage(leverage));
        }
        let raw = match notional.checked_mul(liquidation_engine.initial_margin) {
            Some(x) => x,
            None => return Err(OrderBookError::OverflowError),
        };
        let required = raw.round_dp(2);
        if margin.lt(&required) {
            return Err(
                OrderBookError::InsufficientMargin {
                    required: required.to_u64_or_zero(),
                    provided: margin.to_u64_or_zero(),
                },
            );
        }
        let zero = PriceScalar::zero();
        let mut position = Position {
            trader_id,
            side,
            size,
            entry_price,
            margin,
            leverage,
            unrealized_pnl: zero,
            liquidation_price: zero,
            bankruptcy_price: zero,
        };
        let lp = match liquidation_engine.calculate_liquidation_price(&position) {
            Ok(x) => x,
            Err(e) => return Err(e),
        };
        let bp = match liquidation_engine.calculate_bankruptcy_price(&position) {
            Ok(x) => x,
            Err(e) => return Err(e),
        };
        position.liquidation_price = lp;
        position.bankruptcy_price = bp;
        let i = self.find_slot(trader_id);
        let replaces = i < self.positions.len() && self.positions[i].trader_id == trader_id;
        let mut long_total = self.total_long_interest;
        let mut short_total = self.total_short_interest;
        if replaces {
            let q = self.positions[i];
            proof {
                lemma_leave_total(self@, i as int);
            }
            match q.side {
                PositionSide::Long => {
                    long_total = match long_total.checked_sub(q.size) {
                        Some(x) => x,
                        None => return Err(OrderBookError::OverflowError),
                    };
                },
                PositionSide::Short => {
                    short_total = match short_total.checked_sub(q.size) {
                        Some(x) => x,
                        None => return Err(OrderBookError::OverflowError),
                    };
                },
            }
        }
        match side {
            PositionSide::Long => {
                long_total = match long_total.checked_add(size) {
                    Some(x) => x,
                    None => return Err(OrderBookError::OverflowError),
                };
            },
            PositionSide::Short => {
                short_total = match short_total.checked_add(size) {
                    Some(x) => x,
                    None => return Err(OrderBookError::OverflowError),
                };
            },
        }
        proof {
            lemma_upsert_wf(self@, position);
        }
        if replaces {
            self.positions.set(i, position);
        } else {
            self.positions.insert(i, position);
        }
        self.total_long_interest = long_total;
        self.total_short_interest = short_total;
        Ok(position)
    }

    /// Closes the position of `trader_id` and removes its size from the open interest.
    pub fn close_position(&mut self, trader_id: u64) -> (r: Result<Position, OrderBookError>)
        requires
            old(self).wf(),
        ensures
            final(self).wf(),
            ({
                let s = old(self)@.positions;
                let i = slot(s, trader_id);
                if holds(s, trader_id) {
                    let q = s[i];
                    &&& r == Ok::<Position, OrderBookError>(q)
                    &&& final(self)@.positions == s.remove(i)
                    &&& final(self)@.total_long_interest == if q.side == PositionSide::Long {
                        spec_add(old(self)@.total_long_interest, spec_neg(q.size))->0
                    } else {
                        old(self)@.total_long_interest
                    }
                    &&& final(self)@.total_short_interest == if q.side == PositionSide::Short {
                        spec_add(old(self)@.total_short_interest, spec_neg(q.size))->0
                    } else {
                        old(self)@.total_short_interest
                    }
                    &&& final(self)@.max_leverage == old(self)@.max_leverage
                    &&& final(self)@.max_position_size == old(self)@.max_position_size
                    &&& final(self)@.total_long_interest.units() == old(self)@.total_long_interest.units()
                        - side_size(q, PositionSide::Long)
                    &&& final(self)@.total_short_interest.units()
                        == old(self)@.total_short_interest.units() - side_size(q, PositionSide::Short)
                } else {
                    r == Err::<Position, OrderBookError>(OrderBookError::PositionNotFound { trader_id })
                        && final(self)@ == old(self)@
                }
            }),
    {
        let i = self.find_slot(trader_id);
        if !(i < self.positions.len() && self.positions[i].trader_id == trader_id) {
            return Err(OrderBookError::PositionNotFound { trader_id });
        }
        let q = self.positions[i];
        proof {
            lemma_leave_total(self@, i as int);
            lemma_remove_wf(self@, i as int);
        }
        match q.side {
            PositionSide::Long => {
                match self.total_long_interest.checked_sub(q.size) {
                    Some(x) => {
                        self.total_long_interest = x;
                    },
                    None => return Err(OrderBookError::OverflowError),
                }
            },
            PositionSide::Short => {
                match self.total_short_interest.checked_sub(q.size) {
                    Some(x) => {
                        self.total_short_interest = x;
                    },
                    None => return Err(OrderBookError::OverflowError),
                }
            },
        }
        self.positions.remove(i);
        Ok(q)
    }

    /// Marks every position to `mark_price`, then closes those it liquidates. Returns their
    /// trader ids in increasing order. When a profit cannot be computed nothing changes.
    pub fn update_positions(&mut self, mark_price: PriceScalar, liquidation_engine: &LiquidationEngine) -> (r:
        Result<Vec<u64>, OrderBookError>)
        requires
            old(self).wf(),
            mark_price.wf(),
        ensures
            final(self).wf(),
            (exists|i: int|
                0 <= i < old(self)@.positions.len() && (#[trigger] pnl_of(old(self)@.positions[i], mark_price))
                    is Err) ==> r == Err::<Vec<u64>, OrderBookError>(OrderBookError::OverflowError)
                && final(self)@ == old(self)@,
            (forall|i: int|
                0 <= i < old(self)@.positions.len() ==> (#[trigger] pnl_of(old(self)@.positions[i], mark_price))
                    is Ok) ==> (r matches Ok(ids) && ids@ == liquidated_ids(old(self)@.positions, mark_price)
                && final(self)@.positions == survivors(old(self)@.positions, mark_price)
                && final(self)@.total_long_interest.units() == interest(
                survivors(old(self)@.positions, mark_price),
                PositionSide::Long,
            ) && final(self)@.total_short_interest.units() == interest(
                survivors(old(self)@.positions, mark_price),
                PositionSide::Short,
            ) && final(self)@.max_leverage == old(self)@.max_leverage
                && final(self)@.max_position_size == old(self)@.max_position_size),
    {
        let ghost s0 = self@.positions;
        let n = self.positions.len();
        let mut updated: Vec<Position> = Vec::new();
        let mut i: usize = 0;
        while i < n
            invariant
                n == self.positions.len(),
                self@ == old(self)@,
                s0 == self@.positions,
                self.wf(),
                mark_price.wf(),
                i <= n,
                updated.len() == i,
                forall|k: int|
                    0 <= k < i ==> (#[trigger] updated@[k]) == with_pnl(s0[k], mark_price) && pnl_of(
                        s0[k],
                        mark_price,
                    ) is Ok && updated@[k].wf(),
            decreases n - i,
        {
            let p = self.positions[i];
            let pnl = match LiquidationEngine::calculate_pnl(&p, mark_price) {
                Ok(x) => x,
                Err(_) => return Err(OrderBookError::OverflowError),
            };
            updated.push(Position { unrealized_pnl: pnl, ..p });
            i = i + 1;
        }
        let mut kept: Vec<Position> = Vec::new();
        let mut ids: Vec<u64> = Vec::new();
        let mut long_total = self.total_long_interest;
        let mut short_total = self.total_short_interest;
        let ghost m0 = self@;
        proof {
            assert(s0.subrange(0, 0) =~= Seq::<Position>::empty());
            assert(s0.subrange(0, n as int) =~= s0);
            assert(interest(Seq::<Position>::empty(), PositionSide::Long) == 0);
            assert(interest(Seq::<Position>::empty(), PositionSide::Short) == 0);
        }
        let mut j: usize = 0;
        while j < n
            invariant
                n == s0.len(),
                m0 == old(self)@,
                m0.wf(),
                s0 == m0.positions,
                mark_price.wf(),
                j <= n,
                updated.len() == n,
                forall|k: int|
                    0 <= k < n ==> (#[trigger] updated@[k]) == with_pnl(s0[k], mark_price)
                        && updated@[k].wf() && pnl_of(s0[k], mark_price) is Ok,
                kept@ == survivors(s0.subrange(0, j as int), mark_price),
                ids@ == liquidated_ids(s0.subrange(0, j as int), mark_price),
                long_total.wf(),
                short_total.wf(),
                long_total.scale == m0.total_long_interest.scale,
                short_total.scale == m0.total_short_interest.scale,
                long_total.units() == interest(kept@, PositionSide::Long) + interest(
                    s0.subrange(j as int, n as int),
                    PositionSide::Long,
                ),
                short_total.units() == interest(kept@, PositionSide::Short) + interest(
                    s0.subrange(j as int, n as int),
                    PositionSide::Short,
                ),
                forall|a: int, b: int|
                    0 <= a < b < kept.len() ==> (#[trigger] kept@[a]).trader_id
                        < (#[trigger] kept@[b]).trader_id,
                forall|a: int|
                    0 <= a < kept.len() ==> (j < n ==> (#[trigger] kept@[a]).trader_id
                        < s0[j as int].trader_id) && kept@[a].wf() && kept@[a].size.units() > 0 && (
                    kept@[a].side == PositionSide::Long ==> kept@[a].size.scale <= long_total.scale)
                        && (kept@[a].side == PositionSide::Short ==> kept@[a].size.scale
                        <= short_total.scale),
            decreases n - j,
        {
            let p = updated[j];
            let ghost rest = s0.subrange(j as int, n as int);
            let ghost tail = s0.subrange(j + 1, n as int);
            proof {
                assert(rest =~= seq![s0[j as int]] + tail);
                lemma_interest_concat(seq![s0[j as int]], tail, PositionSide::Long);
                lemma_interest_concat(seq![s0[j as int]], tail, PositionSide::Short);
                lemma_interest_single(s0[j as int], PositionSide::Long);
                lemma_interest_single(s0[j as int], PositionSide::Short);
                assert(s0.subrange(0, j + 1).drop_last() =~= s0.subrange(0, j as int));
                assert(s0.subrange(0, j + 1).last() == s0[j as int]);
                assert forall|k: int| 0 <= k < tail.len() implies (#[trigger] tail[k]).size.units() > 0 by {
                    assert(tail[k] == s0[j + 1 + k]);
                }
                lemma_interest_nonneg(tail, PositionSide::Long);
                lemma_interest_nonneg(tail, PositionSide::Short);
                lemma_interest_nonneg(kept@, PositionSide::Long);
                lemma_interest_nonneg(kept@, PositionSide::Short);
                if j + 1 < n {
                    assert(s0[j as int].trader_id < s0[j + 1].trader_id);
                }
            }
            if liquidation_engine.should_liquidate(&p, mark_price) {
                proof {
                    assert(m0.positions[j as int].wf());
                    if p.side == PositionSide::Long {
                        lemma_sub_fits(long_total, p.size);
                    } else {
                        lemma_sub_fits(short_total, p.size);
                    }
                }
                match p.side {
                    PositionSide::Long => {
                        long_total = match long_total.checked_sub(p.size) {
                            Some(x) => x,
                            None => return Err(OrderBookError::OverflowError),
                        };
                    },
                    PositionSide::Short => {
                        short_total = match short_total.checked_sub(p.size) {
                            Some(x) => x,
                            None => return Err(OrderBookError::OverflowError),
                        };
                    },
                }
                ids.push(p.trader_id);
            } else {
                proof {
                    assert(kept@.push(p).drop_last() =~= kept@);
                }
                kept.push(p);
            }
            j = j + 1;
        }
        proof {
            assert(s0.subrange(0, n as int) =~= s0);
            assert(s0.subrange(n as int, n as int) =~= Seq::<Position>::empty());
            assert(s0 == old(self)@.positions);
            assert forall|k: int| 0 <= k < n implies (#[trigger] pnl_of(s0[k], mark_price)) is Ok by {
                assert(updated@[k] == with_pnl(s0[k], mark_price));
            }
        }
        self.positions = kept;
        self.total_long_interest = long_total;
        self.total_short_interest = short_total;
        Ok(ids)
    }

    /// Charges or credits every position one funding payment at the current rate of
    /// `funding_rate`: a long's margin falls by `size · rate` and a short's rises by it,
    /// exactly whenever the new margin is representable.
    /// Returns each trader's payment in increasing trader id; when a payment or a margin
    /// cannot be computed nothing changes.
    pub fn apply_funding(&mut self, funding_rate: &FundingRate) -> (r: Result<
        Vec<(u64, PriceScalar)>,
        OrderBookError,
    >)
        requires
            old(self).wf(),
            funding_rate.wf(),
        ensures
            final(self).wf(),
            (exists|i: int|
                0 <= i < old(self)@.positions.len() && (#[trigger] funded_margin(
                    old(self)@.positions[i],
                    funding_rate.current_rate,
                )) is None) ==> r == Err::<Vec<(u64, PriceScalar)>, OrderBookError>(
                OrderBookError::OverflowError,
            ) && final(self)@ == old(self)@,
            (forall|i: int|
                0 <= i < old(self)@.positions.len() ==> (#[trigger] funded_margin(
                    old(self)@.positions[i],
                    funding_rate.current_rate,
                )) is Some) ==> (r matches Ok(v) && {
                let s = old(self)@.positions;
                let rate = funding_rate.current_rate;
                &&& v@.len() == s.len()
                &&& final(self)@.positions.len() == s.len()
                &&& final(self)@.total_long_interest == old(self)@.total_long_interest
                &&& final(self)@.total_short_interest == old(self)@.total_short_interest
                &&& final(self)@.max_leverage == old(self)@.max_leverage
                &&& final(self)@.max_position_size == old(self)@.max_position_size
                &&& forall|i: int|
                    0 <= i < s.len() ==> {
                        &&& funding_payment_of(s[i].size, s[i].side == PositionSide::Long, rate)
                            == Ok::<PriceScalar, OrderBookError>((#[trigger] v@[i]).1)
                        &&& v@[i].0 == s[i].trader_id
                        &&& final(self)@.positions[i] == (Position {
                            margin: funded_margin(s[i], rate)->0,
                            ..s[i]
                        })
                        &&& spec_add(s[i].margin, v@[i].1) is Some ==> {
                            &&& s[i].side == PositionSide::Long ==> final(self)@.positions[i].margin.units()
                                == s[i].margin.units() - product_of(s[i].size, rate)->0.units()
                            &&& s[i].side == PositionSide::Short ==> final(self)@.positions[i].margin.units()
                                == s[i].margin.units() + product_of(s[i].size, rate)->0.units()
                        }
                    }
            }),
    {
        let ghost s0 = self@.positions;
        let ghost rate = funding_rate.current_rate;
        let n = self.positions.len();
        let mut funded: Vec<Position> = Vec::new();
        let mut payments: Vec<(u64, PriceScalar)> = Vec::new();
        let mut i: usize = 0;
        while i < n
            invariant
                n == self.positions.len(),
                self@ == old(self)@,
                s0 == self@.positions,
                self.wf(),
                funding_rate.wf(),
                rate == funding_rate.current_rate,
                i <= n,
                funded.len() == i,
                payments.len() == i,
                forall|k: int|
                    0 <= k < i ==> {
                        &&& funding_payment_of(s0[k].size, s0[k].side == PositionSide::Long, rate)
                            == Ok::<PriceScalar, OrderBookError>((#[trigger] payments@[k]).1)
                        &&& payments@[k].0 == s0[k].trader_id
                        &&& spec_add(s0[k].margin, payments@[k].1) is Some ==> {
                            &&& s0[k].side == PositionSide::Long ==> funded@[k].margin.units()
                                == s0[k].margin.units() - product_of(s0[k].size, rate)->0.units()
                            &&& s0[k].side == PositionSide::Short ==> funded@[k].margin.units()
                                == s0[k].margin.units() + product_of(s0[k].size, rate)->0.units()
                        }
                    },
                forall|k: int|
                    0 <= k < i ==> {
                        &&& funded_margin(s0[k], rate) is Some
                        &&& (#[trigger] funded@[k]) == (Position { margin: funded_margin(s0[k], rate)->0, ..s0[k] })
                        &&& funded@[k].margin.wf()
                    },
            decreases n - i,
        {
            let p = self.positions[i];
            let is_long = match p.side {
                PositionSide::Long => true,
                PositionSide::Short => false,
            };
            let payment = match funding_rate.calculate_funding_payment(p.size, is_long) {
                Ok(x) => x,
                Err(_) => {
                    proof {
                        assert(funded_margin(old(self)@.positions[i as int], rate) is None);
                    }
                    return Err(OrderBookError::OverflowError);
                },
            };
            let margin = match p.margin.add_rounded(payment) {
                Some(x) => x,
                None => {
                    proof {
                        assert(funded_margin(old(self)@.positions[i as int], rate) is None);
                    }
                    return Err(OrderBookError::OverflowError);
                },
            };
            proof {
                let prod = product_of(p.size, rate)->0;
                lemma_spec_add(p.margin, prod);
                lemma_spec_add(p.margin, payment);
            }
            funded.push(Position { margin, ..p });
            payments.push((p.trader_id, payment));
            i = i + 1;
        }
        proof {
            let after = ManagerView { positions: funded@, ..self@ };
            assert forall|a: int, b: int| 0 <= a < b < funded.len() implies (#[trigger] funded@[a]).trader_id
                < (#[trigger] funded@[b]).trader_id by {
                assert(s0[a].trader_id < s0[b].trader_id);
            }
            assert forall|k: int| 0 <= k < funded.len() implies (#[trigger] funded@[k]).wf() by {
                assert(s0[k].wf());
            }
            assert(s0 == old(self)@.positions);
            assert forall|k: int| 0 <= k < n implies (#[trigger] funded_margin(s0[k], rate)) is Some by {
                assert(funded@[k].trader_id == s0[k].trader_id);
            }
            assert(interest(funded@, PositionSide::Long) == interest(s0, PositionSide::Long)) by {
                lemma_interest_same_sizes(funded@, s0, PositionSide::Long);
            }
            assert(interest(funded@, PositionSide::Short) == interest(s0, PositionSide::Short)) by {
                lemma_interest_same_sizes(funded@, s0, PositionSide::Short);
            }
        }
        self.positions = funded;
        Ok(payments)
    }
}

/// Open interest depends on sizes and sides alone.
proof fn lemma_interest_same_sizes(a: Seq<Position>, b: Seq<Position>, side: PositionSide)
    requires
        a.len() == b.len(),
        forall|k: int| 0 <= k < a.len() ==> (#[trigger] a[k]).size == b[k].size && a[k].side == b[k].side,
    ensures
        interest(a, side) == interest(b, side),
    decreases a.len(),
{
    if a.len() > 0 {
        lemma_interest_same_sizes(a.drop_last(), b.drop_last(), side);
    }
}

/// A position is liquidated at the liquidation price the engine computes for it, long or
/// short.
pub proof fn lemma_liquidated_at_own_price(e: LiquidationEngine, p: Position)
    requires
        e.wf(),
        p.wf(),
        liquidation_price_of(e.maintenance_margin, e.liquidation_fee, p) is Ok,
    ensures
        ({
            let lp = liquidation_price_of(e.maintenance_margin, e.liquidation_fee, p)->Ok_0;
            liquidates(Position { liquidation_price: lp, ..p }, lp)
        }),
{
}

/// Every state the manager reaches keeps each open-interest total equal to the sum of the
/// sizes of the positions on its side.
pub proof fn lemma_open_interest(m: ManagerView)
    requires
        m.wf(),
    ensures
        m.total_long_interest.units() == interest(m.positions, PositionSide::Long),
        m.total_short_interest.units() == interest(m.positions, PositionSide::Short),
{
}

/// `(bid + ask) / 2`.
pub open spec fn fair_of(bid: PriceScalar, ask: PriceScalar) -> Option<PriceScalar> {
    match rounded_sum_of(bid, ask) {
        Some(sum) => quotient_of(sum, PriceScalar { mantissa: 2, scale: 0 }),
        None => None,
    }
}

/// `0.9 · basis + 0.1 · (fair − index)`.
pub open spec fn basis_of(basis: PriceScalar, fair: PriceScalar, index: PriceScalar) -> Option<PriceScalar> {
    match (
        rounded_difference_of(fair, index),
        product_of(basis, PriceScalar { mantissa: 9, scale: 1 }),
    ) {
        (Some(d), Some(a)) => match product_of(d, PriceScalar { mantissa: 1, scale: 1 }) {
            Some(b) => rounded_sum_of(a, b),
            None => None,
        },
        _ => None,
    }
}

/// `(bid · 0.999 + ask · 1.001) / 2`.
pub open spec fn impact_mid_of(bid: PriceScalar, ask: PriceScalar) -> Option<PriceScalar> {
    match (
        product_of(bid, PriceScalar { mantissa: 999, scale: 3 }),
        product_of(ask, PriceScalar { mantissa: 1001, scale: 3 }),
    ) {
        (Some(ib), Some(ia)) => match rounded_sum_of(ib, ia) {
            Some(sum) => quotient_of(sum, PriceScalar { mantissa: 2, scale: 0 }),
            None => None,
        },
        _ => None,
    }
}

/// `(impact mid + 2 · index) / 3`.
pub open spec fn mark_of(mid: PriceScalar, index: PriceScalar) -> Option<PriceScalar> {
    match product_of(index, PriceScalar { mantissa: 2, scale: 0 }) {
        Some(twice) => match rounded_sum_of(mid, twice) {
            Some(sum) => quotient_of(sum, PriceScalar { mantissa: 3, scale: 0 }),
            None => None,
        },
        None => None,
    }
}

/// Samples kept by a mark price.
pub const MARK_SAMPLES: usize = 100;

/// A mark price resistant to manipulation of one-sided quotes.
#[derive(Clone, Debug)]
pub struct MarkPrice {
    pub price: PriceScalar,
    pub fair_price: PriceScalar,
    pub index_price: PriceScalar,
    pub funding_basis: PriceScalar,
    /// (sequence, mark, index) of recent computations, oldest first.
    pub price_samples: VecDeque<(u64, PriceScalar, PriceScalar)>,
}

impl MarkPrice {
    pub open spec fn wf(&self) -> bool {
        &&& self.price.wf()
        &&& self.fair_price.wf()
        &&& self.index_price.wf()
        &&& self.funding_basis.wf()
        &&& self.price_samples@.len() <= MARK_SAMPLES
    }

    /// Mark, fair and index price 1000, no basis, no samples.
    pub fn new() -> (r: MarkPrice)
        ensures
            r.wf(),
            r.price == (PriceScalar { mantissa: 1000, scale: 0 }),
            r.fair_price == (PriceScalar { mantissa: 1000, scale: 0 }),
            r.index_price == (PriceScalar { mantissa: 1000, scale: 0 }),
            r.funding_basis.units() == 0,
            r.price_samples@.len() == 0,
    {
        MarkPrice {
            price: PriceScalar::new(1000, 0),
            fair_price: PriceScalar::new(1000, 0),
            index_price: PriceScalar::new(1000, 0),
            funding_basis: PriceScalar::zero(),
            price_samples: VecDeque::new(),
        }
    }

    /// Recomputes the mark from the best quotes and the index: the fair price is the mid,
    /// the basis an exponential average of fair minus index, and the mark weighs the
    /// impact-adjusted mid once and the index twice. On an error nothing changes.
    pub fn calculate(&mut self, best_bid: PriceScalar, best_ask: PriceScalar, index_price: PriceScalar) -> (r:
        Result<(), OrderBookError>)
        requires
            old(self).wf(),
            best_bid.wf(),
            best_ask.wf(),
            index_price.wf(),
        ensures
            final(self).wf(),
            best_bid.units() <= 0 || best_ask.units() <= 0 ==> r == Err::<(), OrderBookError>(
                OrderBookError::InvalidPrice,
            ) && *final(self) == *old(self),
            best_bid.units() > 0 && best_ask.units() > 0 && best_bid.units() > best_ask.units()
                ==> r == Err::<(), OrderBookError>(OrderBookError::MarketManipulation) && *final(
                self) == *old(self),
            0 < best_bid.units() <= best_ask.units() ==> match fair_of(best_bid, best_ask) {
                Some(fair) => match (
                    basis_of(old(self).funding_basis, fair, index_price),
                    impact_mid_of(best_bid, best_ask),
                ) {
                    (Some(basis), Some(mid)) => match mark_of(mid, index_price) {
                        Some(mark) => {
                            &&& r is Ok
                            &&& final(self).price == mark
                            &&& final(self).fair_price == fair
                            &&& final(self).index_price == index_price
                            &&& final(self).funding_basis == basis
                            &&& final(self).price_samples@ == ({
                                let pushed = old(self).price_samples@.push(
                                    (old(self).price_samples@.len() as u64, mark, index_price),
                                );
                                if pushed.len() > MARK_SAMPLES {
                                    pushed.drop_first()
                                } else {
                                    pushed
                                }
                            })
                        },
                        None => r == Err::<(), OrderBookError>(OrderBookError::OverflowError)
                            && *final(self) == *old(self),
                    },
                    _ => r == Err::<(), OrderBookError>(OrderBookError::OverflowError) && *final(
                        self) == *old(self),
                },
                None => r == Err::<(), OrderBookError>(OrderBookError::OverflowError) && *final(self)
                    == *old(self),
            },
    {
        if !best_bid.is_positive() || !best_ask.is_positive() {
            return Err(OrderBookError::InvalidPrice);
        }
        if best_bid.gt(&best_ask) {
            return Err(OrderBookError::MarketManipulation);
        }
        let two = PriceScalar::new(2, 0);
        let fair = match best_bid.add_rounded(best_ask) {
            Some(sum) => match sum.checked_div(two) {
                Some(x) => x,
                None => return Err(OrderBookError::OverflowError),
            },
            None => return Err(OrderBookError::OverflowError),
        };
        let diff = fair.sub_rounded(index_price);
        let kept = self.funding_basis.checked_mul(PriceScalar::new(9, 1));
        let basis = match (diff, kept) {
            (Some(d), Some(a)) => match d.checked_mul(PriceScalar::new(1, 1)) {
                Some(b) => match a.add_rounded(b) {
                    Some(x) => x,
                    None => return Err(OrderBookError::OverflowError),
                },
                None => return Err(OrderBookError::OverflowError),
            },
            _ => return Err(OrderBookError::OverflowError),
        };
        let impact_bid = best_bid.checked_mul(PriceScalar::new(999, 3));
        let impact_ask = best_ask.checked_mul(PriceScalar::new(1001, 3));
        let mid = match (impact_bid, impact_ask) {
            (Some(ib), Some(ia)) => match ib.add_rounded(ia) {
                Some(sum) => match sum.checked_div(two) {
                    Some(x) => x,
                    None => return Err(OrderBookError::OverflowError),
                },
                None => return Err(OrderBookError::OverflowError),
            },
            _ => return Err(OrderBookError::OverflowError),
        };
        let mark = match index_price.checked_mul(two) {
            Some(twice) => match mid.add_rounded(twice) {
                Some(sum) => match sum.checked_div(PriceScalar::new(3, 0)) {
                    Some(x) => x,
                    None => return Err(OrderBookError::OverflowError),
                },
                None => return Err(OrderBookError::OverflowError),
            },
            None => return Err(OrderBookError::OverflowError),
        };
        self.fair_price = fair;
        self.index_price = index_price;
        self.funding_basis = basis;
        self.price = mark;
        let timestamp = self.price_samples.len() as u64;
        self.price_samples.push_back((timestamp, mark, index_price));
        if self.price_samples.len() > MARK_SAMPLES {
            self.price_samples.pop_front();
        }
        Ok(())
    }
}

/// Prices kept by an oracle.
pub const ORACLE_HISTORY: usize = 1000;

/// The sum of the `k` newest prices of `h`, newest first.
pub open spec fn newest_sum(h: Seq<(u64, PriceScalar)>, k: int) -> Option<PriceScalar>
    decreases k,
{
    if k <= 0 {
        Some(PriceScalar { mantissa: 0, scale: 0 })
    } else {
        match newest_sum(h, k - 1) {
            Some(t) => rounded_sum_of(t, h[h.len() - k].1),
            None => None,
        }
    }
}

/// Once a newest-first sum fails, every longer one fails.
proof fn lemma_newest_none(h: Seq<(u64, PriceScalar)>, j: int, k: int)
    requires
        1 <= j <= k,
        newest_sum(h, j) is None,
    ensures
        newest_sum(h, k) is None,
    decreases k - j,
{
    if j < k {
        lemma_newest_none(h, j, k - 1);
    }
}

/// An externally fed index price with its recent history.
#[derive(Clone, Debug)]
pub struct OraclePrice {
    pub price: PriceScalar,
    pub timestamp: u64,
    pub confidence: PriceScalar,
    pub source: &'static str,
    /// (timestamp, price) of recent updates, oldest first.
    pub price_history: VecDeque<(u64, PriceScalar)>,
}

impl OraclePrice {
    pub open spec fn wf(&self) -> bool {
        &&& self.price.wf()
        &&& self.confidence.wf()
        &&& self.price_history@.len() <= ORACLE_HISTORY
        &&& forall|i: int| 0 <= i < self.price_history@.len() ==> (#[trigger] self.price_history@[i]).1.wf()
    }

    pub fn new(price: PriceScalar) -> (r: OraclePrice)
        requires
            price.wf(),
        ensures
            r.wf(),
            r.price == price,
            r.timestamp == 0,
            r.confidence == (PriceScalar { mantissa: 99, scale: 2 }),
            r.price_history@.len() == 0,
    {
        OraclePrice {
            price,
            timestamp: 0,
            confidence: PriceScalar::new(99, 2),
            source: "Simulated",
            price_history: VecDeque::new(),
        }
    }

    /// Takes `spot_price · (1 + noise)` as the new price, advances the timestamp and records
    /// the price. The caller draws `noise`, nominally within ±0.0005. On an error nothing
    /// changes.
    pub fn update(&mut self, spot_price: PriceScalar, noise: PriceScalar) -> (r: Result<(), OrderBookError>)
        requires
            old(self).wf(),
            spot_price.wf(),
            noise.wf(),
        ensures
            final(self).wf(),
            match rounded_sum_of(PriceScalar { mantissa: 1, scale: 0 }, noise) {
                Some(factor) => match product_of(spot_price, factor) {
                    Some(p) => if old(self).timestamp == u64::MAX {
                        r == Err::<(), OrderBookError>(OrderBookError::OverflowError) && *final(self)
                            == *old(self)
                    } else {
                        &&& r is Ok
                        &&& final(self).price == p
                        &&& final(self).timestamp == old(self).timestamp + 1
                        &&& final(self).price_history@ == ({
                            let pushed = old(self).price_history@.push((final(self).timestamp, p));
                            if pushed.len() > ORACLE_HISTORY {
                                pushed.drop_first()
                            } else {
                                pushed
                            }
                        })
                        &&& final(self).confidence == old(self).confidence
                    },
                    None => r == Err::<(), OrderBookError>(OrderBookError::OverflowError) && *final(
                        self) == *old(self),
                },
                None => r == Err::<(), OrderBookError>(OrderBookError::OverflowError) && *final(self)
                    == *old(self),
            },
    {
        let factor = match PriceScalar::one().add_rounded(noise) {
            Some(x) => x,
            None => return Err(OrderBookError::OverflowError),
        };
        let price = match spot_price.checked_mul(factor) {
            Some(x) => x,
            None => return Err(OrderBookError::OverflowError),
        };
        if self.timestamp == u64::MAX {
            return Err(OrderBookError::OverflowError);
        }
        self.price = price;
        self.timestamp = self.timestamp + 1;
        self.price_history.push_back((self.timestamp, price));
        if self.price_history.len() > ORACLE_HISTORY {
            self.price_history.pop_front();
        }
        proof {
            assert forall|i: int| 0 <= i < self.price_history@.len() implies (#[trigger] self.price_history@[i]).1.wf() by {
                if i == self.price_history@.len() - 1 {
                } else {
                    assert(old(self).price_history@.len() <= ORACLE_HISTORY);
                }
            }
        }
        Ok(())
    }

    /// The mean of the `lookback_periods` newest prices; the current price when there is no
    /// history or no period is asked for.
    pub fn get_twap(&self, lookback_periods: usize) -> (r: Result<PriceScalar, OrderBookError>)
        requires
            self.wf(),
        ensures
            ({
                let h = self.price_history@;
                let k = if lookback_periods < h.len() {
                    lookback_periods as int
                } else {
                    h.len() as int
                };
                if k == 0 {
                    r == Ok::<PriceScalar, OrderBookError>(self.price)
                } else {
                    match newest_sum(h, k) {
                        Some(sum) => r == match quotient_of(sum, PriceScalar { mantissa: k as i128, scale: 0 }) {
                            Some(q) => Ok::<PriceScalar, OrderBookError>(q),
                            None => Err(OrderBookError::OverflowError),
                        },
                        None => r == Err::<PriceScalar, OrderBookError>(OrderBookError::OverflowError),
                    }
                }
            }),
    {
        let n = self.price_history.len();
        let k = if lookback_periods < n {
            lookback_periods
        } else {
            n
        };
        if k == 0 {
            return Ok(self.price);
        }
        let mut sum = PriceScalar::zero();
        let mut i: usize = 0;
        while i < k
            invariant
                k <= n == self.price_history@.len(),
                k == (if lookback_periods < n {
                    lookback_periods
                } else {
                    n
                }),
                self.wf(),
                i <= k,
                sum.wf(),
                newest_sum(self.price_history@, i as int) == Some(sum),
            decreases k - i,
        {
            sum = match sum.add_rounded(self.price_history[n - 1 - i].1) {
                Some(x) => x,
                None => {
                    proof {
                        let h = self.price_history@;
                        assert(h[h.len() - (i + 1)] == h[n - 1 - i]);
                        assert(newest_sum(h, i + 1) == rounded_sum_of(sum, h[n - 1 - i].1));
                        lemma_newest_none(self.price_history@, i + 1, k as int);

                    }
                    return Err(OrderBookError::OverflowError);
                },
            };
            i = i + 1;
        }
        match sum.checked_div(PriceScalar { mantissa: k as i128, scale: 0 }) {
            Some(q) => Ok(q),
            None => Err(OrderBookError::OverflowError),
        }
    }
}

impl Default for PositionManager {
    fn default() -> (r: PositionManager)
        ensures
            r.wf(),
            r@.positions.len() == 0,
    {
        PositionManager::new()
    }
}

impl Default for LiquidationEngine {
    fn default() -> (r: LiquidationEngine)
        ensures
            r.wf(),
            r.maintenance_margin == (PriceScalar { mantissa: 5, scale: 3 }),
            r.liquidation_fee == (PriceScalar { mantissa: 3, scale: 3 }),
    {
        LiquidationEngine::new()
    }
}

impl Default for MarkPrice {
    fn default() -> (r: MarkPrice)
        ensures
            r.wf(),
            r.price == (PriceScalar { mantissa: 1000, scale: 0 }),
    {
        MarkPrice::new()
    }
}

impl Default for FeeStructure {
    fn default() -> (r: FeeStructure)
        ensures
            r.wf(),
            r.taker_fee == (PriceScalar { mantissa: 5, scale: 4 }),
    {
        FeeStructure::new()
    }
}

} // verus!
