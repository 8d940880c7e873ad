use crate::decimal::{
    lemma_pow10_28, lemma_sub_same_value, pow10, rounded_difference_of, rounded_sum_of, spec_add,
    spec_neg, PriceScalar, MAX_MANTISSA,
};
use crate::error::OrderBookError;
use crate::types::{Order, Side, Trade};
use vstd::prelude::*;

verus! {

/// An order together with the price of the level it rests at.
#[derive(Clone, Copy, Debug, PartialEq, Eq, Structural)]
pub struct RestingOrder {
    pub price: PriceScalar,
    pub order: Order,
}

/// `p` ranks strictly below `q` on a side: a lower bid, or a higher ask.
pub open spec fn worse(is_bid: bool, p: PriceScalar, q: PriceScalar) -> bool {
    if is_bid {
        p.units() < q.units()
    } else {
        p.units() > q.units()
    }
}

/// A side is stored worst first: no order ranks below one stored before it, and the best
/// order (the next to match) is the last one.
pub open spec fn sorted_side(s: Seq<RestingOrder>, is_bid: bool) -> bool {
    forall|i: int, j: int| 0 <= i < j < s.len() ==> !worse(is_bid, #[trigger] s[j].price, #[trigger] s[i].price)
}

pub open spec fn resting_wf(r: RestingOrder, sequence: u64) -> bool {
    &&& r.price.wf()
    &&& r.order.quantity.wf()
    &&& r.order.quantity.units() > 0
    &&& r.order.timestamp < sequence
}

/// Prices and quantities are well formed.
pub open spec fn side_values_wf(s: Seq<RestingOrder>) -> bool {
    forall|i: int| 0 <= i < s.len() ==> (#[trigger] s[i]).price.wf() && s[i].order.quantity.wf()
}

/// At one price, orders stored later arrived earlier: the last of a run is the first to
/// match.
pub open spec fn time_ordered(s: Seq<RestingOrder>) -> bool {
    forall|i: int, j: int|
        0 <= i < j < s.len() && (#[trigger] s[i]).price.units() == (#[trigger] s[j]).price.units()
            ==> s[i].order.timestamp > s[j].order.timestamp
}

pub open spec fn side_wf(s: Seq<RestingOrder>, is_bid: bool, sequence: u64) -> bool {
    &&& sorted_side(s, is_bid)
    &&& time_ordered(s)
    &&& forall|i: int| 0 <= i < s.len() ==> resting_wf(#[trigger] s[i], sequence)
    &&& forall|i: int, j: int|
        0 <= i < j < s.len() ==> (#[trigger] s[i]).order.timestamp != (#[trigger] s[j]).order.timestamp
}

/// The largest quantity a book may accept: 1 000 000, in units of 10^-28.
pub open spec fn quantity_cap() -> int {
    1_000_000 * pow10(28)
}

/// Every quantity on the side is positive and within the cap.
pub open spec fn side_bounded(s: Seq<RestingOrder>) -> bool {
    forall|i: int|
        0 <= i < s.len() ==> (#[trigger] s[i]).price.wf() && s[i].order.quantity.wf()
            && 0 < s[i].order.quantity.units() <= quantity_cap()
}

/// The state of a book.
pub struct BookView {
    /// Bids, lowest price first.
    pub bids: Seq<RestingOrder>,
    /// Asks, highest price first.
    pub asks: Seq<RestingOrder>,
    pub sequence: u64,
    pub min_price: PriceScalar,
    pub max_price: PriceScalar,
    pub max_quantity: PriceScalar,
}

impl BookView {
    /// The best bid is below the best ask whenever both exist.
    pub open spec fn uncrossed(self) -> bool {
        self.bids.len() > 0 && self.asks.len() > 0 ==> self.bids.last().price.units()
            < self.asks.last().price.units()
    }

    pub open spec fn wf(self) -> bool {
        &&& side_wf(self.bids, true, self.sequence)
        &&& side_wf(self.asks, false, self.sequence)
        &&& forall|i: int, j: int|
            0 <= i < self.bids.len() && 0 <= j < self.asks.len() ==> (#[trigger] self.bids[i]).order.timestamp
                != (#[trigger] self.asks[j]).order.timestamp
        &&& self.uncrossed()
        &&& self.min_price.wf()
        &&& self.max_price.wf()
        &&& self.max_quantity.wf()
        &&& self.max_quantity.units() <= quantity_cap()
        &&& forall|i: int|
            0 <= i < self.bids.len() ==> (#[trigger] self.bids[i]).order.quantity.units()
                <= self.max_quantity.units()
        &&& forall|i: int|
            0 <= i < self.asks.len() ==> (#[trigger] self.asks[i]).order.quantity.units()
                <= self.max_quantity.units()
    }
}

/// A resting order at `p` is reachable by a taker with limit `limit`.
pub open spec fn crosses(taker_buys: bool, limit: PriceScalar, p: PriceScalar) -> bool {
    if taker_buys {
        p.units() <= limit.units()
    } else {
        p.units() >= limit.units()
    }
}

/// The quantity of one match: the smaller of what the taker and the maker have left.
pub open spec fn fill_of(remaining: PriceScalar, maker: PriceScalar) -> PriceScalar {
    if maker.units() < remaining.units() {
        maker
    } else {
        remaining
    }
}

/// The result of walking the opposing side.
pub struct WalkOutcome {
    pub trades: Seq<Trade>,
    pub rest: Seq<RestingOrder>,
    pub remaining: PriceScalar,
}

pub open spec fn prepend(ts: Seq<Trade>, o: Option<WalkOutcome>) -> Option<WalkOutcome> {
    match o {
        Some(w) => Some(WalkOutcome { trades: ts + w.trades, rest: w.rest, remaining: w.remaining }),
        None => None,
    }
}

/// Matching a taker against the opposing side `s`, best order first: each match fills the
/// smaller remainder at the maker's price, both remainders drop by the fill (the decimal
/// crate's subtraction), a maker left with nothing leaves the side, and the walk stops when
/// the taker is filled or the best maker no longer crosses. `place_order` shows that on a
/// well-formed book the walk always exists.
pub open spec fn walk(
    s: Seq<RestingOrder>,
    taker_buys: bool,
    limit: PriceScalar,
    remaining: PriceScalar,
    taker_id: u64,
) -> Option<WalkOutcome>
    decreases s.len(),
{
    if remaining.units() <= 0 || s.len() == 0 || !crosses(taker_buys, limit, s.last().price) {
        Some(WalkOutcome { trades: Seq::empty(), rest: s, remaining })
    } else {
        let m = s.last();
        let fill = fill_of(remaining, m.order.quantity);
        let trade = Trade { price: m.price, quantity: fill, maker_id: m.order.id, taker_id };
        match (rounded_difference_of(remaining, fill), rounded_difference_of(m.order.quantity, fill)) {
            (Some(r2), Some(q2)) => {
                if q2.units() <= 0 {
                    prepend(seq![trade], walk(s.drop_last(), taker_buys, limit, r2, taker_id))
                } else {
                    let kept = RestingOrder {
                        price: m.price,
                        order: Order { id: m.order.id, quantity: q2, timestamp: m.order.timestamp },
                    };
                    Some(
                        WalkOutcome {
                            trades: seq![trade],
                            rest: s.drop_last().push(kept),
                            remaining: r2,
                        },
                    )
                }
            },
            _ => None,
        }
    }
}

/// Every subtraction of the walk is exact: its exact result fits the representation.
pub open spec fn walk_exact(
    s: Seq<RestingOrder>,
    taker_buys: bool,
    limit: PriceScalar,
    remaining: PriceScalar,
    taker_id: u64,
) -> bool
    decreases s.len(),
{
    if remaining.units() <= 0 || s.len() == 0 || !crosses(taker_buys, limit, s.last().price) {
        true
    } else {
        let m = s.last();
        let fill = fill_of(remaining, m.order.quantity);
        &&& spec_add(remaining, spec_neg(fill)) is Some
        &&& spec_add(m.order.quantity, spec_neg(fill)) is Some
        &&& match (
            rounded_difference_of(remaining, fill),
            rounded_difference_of(m.order.quantity, fill),
        ) {
            (Some(r2), Some(q2)) => q2.units() <= 0 ==> walk_exact(
                s.drop_last(),
                taker_buys,
                limit,
                r2,
                taker_id,
            ),
            _ => true,
        }
    }
}

/// What a walk leaves of the side `opp`: a prefix with the same prices, ids and sequence
/// numbers whose quantities stay positive and may only shrink, and a remainder within
/// `[0, quantity]` that no longer crosses when it is positive.
pub open spec fn walk_shape(
    opp: Seq<RestingOrder>,
    rest: Seq<RestingOrder>,
    remaining: PriceScalar,
    taker_buys: bool,
    limit: PriceScalar,
    quantity: PriceScalar,
) -> bool {
    &&& rest.len() <= opp.len()
    &&& forall|i: int|
        0 <= i < rest.len() ==> (#[trigger] rest[i]).price == opp[i].price && rest[i].order.id
            == opp[i].order.id && rest[i].order.timestamp == opp[i].order.timestamp
            && rest[i].order.quantity.wf() && 0 < rest[i].order.quantity.units()
            <= opp[i].order.quantity.units()
    &&& remaining.wf()
    &&& 0 <= remaining.units() <= quantity.units()
    &&& remaining.units() > 0 ==> (rest.len() == 0 || !crosses(taker_buys, limit, rest.last().price))
}

/// `s` with `x` inserted after every order that ranks strictly below it, so that `x` is
/// matched after the orders already resting at its price.
pub open spec fn insert_at(s: Seq<RestingOrder>, is_bid: bool, x: RestingOrder) -> Seq<RestingOrder>
    decreases s.len(),
{
    if s.len() == 0 {
        seq![x]
    } else if worse(is_bid, s[0].price, x.price) {
        seq![s[0]] + insert_at(s.drop_first(), is_bid, x)
    } else {
        seq![x] + s
    }
}

/// The book after a limit order and what the call returns.
pub open spec fn place_spec(
    b: BookView,
    side: Side,
    price: PriceScalar,
    quantity: PriceScalar,
    id: u64,
) -> (Result<Seq<Trade>, OrderBookError>, BookView) {
    if quantity.units() <= 0 || quantity.units() > b.max_quantity.units() {
        (Err(OrderBookError::InvalidQuantity), b)
    } else if price.units() < b.min_price.units() || price.units() > b.max_price.units() {
        (Err(OrderBookError::InvalidPrice), b)
    } else if b.sequence == u64::MAX {
        (Err(OrderBookError::OverflowError), b)
    } else {
        let buys = side == Side::Buy;
        let next = (b.sequence + 1) as u64;
        let opposing = if buys {
            b.asks
        } else {
            b.bids
        };
        match walk(opposing, buys, price, quantity, id) {
            None => (Err(OrderBookError::OverflowError), b),
            Some(w) => {
                let entry = RestingOrder {
                    price,
                    order: Order { id, quantity: w.remaining, timestamp: b.sequence },
                };
                let own = if buys {
                    b.bids
                } else {
                    b.asks
                };
                let own2 = if w.remaining.units() > 0 {
                    insert_at(own, buys, entry)
                } else {
                    own
                };
                (
                    Ok(w.trades),
                    BookView {
                        bids: if buys {
                            own2
                        } else {
                            w.rest
                        },
                        asks: if buys {
                            w.rest
                        } else {
                            own2
                        },
                        sequence: next,
                        min_price: b.min_price,
                        max_price: b.max_price,
                        max_quantity: b.max_quantity,
                    },
                )
            },
        }
    }
}

/// Sum of the trade quantities, in units of 10^-28.
pub open spec fn traded(ts: Seq<Trade>) -> int
    decreases ts.len(),
{
    if ts.len() == 0 {
        0
    } else {
        ts[0].quantity.units() + traded(ts.drop_first())
    }
}

proof fn lemma_traded_concat(a: Seq<Trade>, b: Seq<Trade>)
    ensures
        traded(a + b) == traded(a) + traded(b),
    decreases a.len(),
{
    if a.len() > 0 {
        assert((a + b).drop_first() =~= a.drop_first() + b);
        lemma_traded_concat(a.drop_first(), b);
    } else {
        assert(a + b =~= b);
    }
}

pub open spec fn opt_add(t: Option<PriceScalar>, q: PriceScalar) -> Option<PriceScalar> {
    match t {
        Some(t) => rounded_sum_of(t, q),
        None => None,
    }
}

/// The quantities of `s[j..i)` added in order, oldest first.
pub open spec fn sum_up(s: Seq<RestingOrder>, j: int, i: int) -> Option<PriceScalar>
    decreases i - j,
{
    if i <= j + 1 {
        Some(s[j].order.quantity)
    } else {
        opt_add(sum_up(s, j, i - 1), s[i - 1].order.quantity)
    }
}

/// The price levels of `s[0..i)`, best first: each run of equal prices with the price of its
/// best order and the total of its quantities (`None` when the total cannot be represented).
pub open spec fn levels(s: Seq<RestingOrder>, i: int) -> Seq<(PriceScalar, Option<PriceScalar>)>
    decreases i,
{
    if i <= 0 {
        Seq::empty()
    } else {
        let rest = levels(s, i - 1);
        if i >= 2 && s[i - 2].price.units() == s[i - 1].price.units() && rest.len() > 0 {
            seq![(s[i - 1].price, opt_add(rest[0].1, s[i - 1].order.quantity))] + rest.drop_first()
        } else {
            seq![(s[i - 1].price, Some(s[i - 1].order.quantity))] + rest
        }
    }
}

/// All levels of a side, best first.
pub open spec fn side_levels(s: Seq<RestingOrder>) -> Seq<(PriceScalar, Option<PriceScalar>)> {
    levels(s, s.len() as int)
}

/// The best level of a side with its total.
pub open spec fn best_level(s: Seq<RestingOrder>) -> Option<(PriceScalar, PriceScalar)> {
    if side_levels(s).len() == 0 {
        None
    } else {
        match side_levels(s)[0].1 {
            Some(t) => Some((side_levels(s)[0].0, t)),
            None => None,
        }
    }
}

/// A run `s[j..i)` of equal prices that starts a level makes the first level of `s[0..i)`.
proof fn lemma_levels_run(s: Seq<RestingOrder>, j: int, i: int)
    requires
        0 <= j < i <= s.len(),
        forall|k: int| j <= k < i ==> (#[trigger] s[k]).price.units() == s[i - 1].price.units(),
        j == 0 || s[j - 1].price.units() != s[j].price.units(),
    ensures
        levels(s, i) == seq![(s[i - 1].price, sum_up(s, j, i))] + levels(s, j),
    decreases i - j,
{
    if i == j + 1 {
        assert(levels(s, i) == seq![(s[i - 1].price, Some(s[i - 1].order.quantity))] + levels(s, j));
    } else {
        lemma_levels_run(s, j, i - 1);
        let rest = levels(s, i - 1);
        assert(rest[0].1 == sum_up(s, j, i - 1));
        assert(rest.drop_first() =~= levels(s, j));
    }
}

/// The two sides do not cross: `own`'s best order ranks strictly below `opp`'s best.
pub open spec fn apart(own: Seq<RestingOrder>, opp: Seq<RestingOrder>, own_is_bid: bool) -> bool {
    own.len() > 0 && opp.len() > 0 ==> worse(own_is_bid, own.last().price, opp.last().price)
}

pub open spec fn distinct_between(a: Seq<RestingOrder>, b: Seq<RestingOrder>) -> bool {
    forall|i: int, j: int|
        0 <= i < a.len() && 0 <= j < b.len() ==> (#[trigger] a[i]).order.timestamp
            != (#[trigger] b[j]).order.timestamp
}

proof fn lemma_insert_at(s: Seq<RestingOrder>, is_bid: bool, x: RestingOrder, p: int)
    requires
        0 <= p <= s.len(),
        forall|i: int| 0 <= i < p ==> worse(is_bid, (#[trigger] s[i]).price, x.price),
        p < s.len() ==> !worse(is_bid, s[p].price, x.price),
    ensures
        insert_at(s, is_bid, x) == s.insert(p, x),
    decreases p,
{
    if p == 0 {
        if s.len() == 0 {
            assert(s.insert(0, x) =~= seq![x]);
        } else {
            assert(s.insert(0, x) =~= seq![x] + s);
        }
    } else {
        let t = s.drop_first();
        assert forall|i: int| 0 <= i < p - 1 implies worse(is_bid, (#[trigger] t[i]).price, x.price) by {
            assert(t[i] == s[i + 1]);
        }
        lemma_insert_at(t, is_bid, x, p - 1);
        assert(s.insert(p, x) =~= seq![s[0]] + t.insert(p - 1, x));
    }
}

proof fn lemma_insert_point(s: Seq<RestingOrder>, is_bid: bool, x: RestingOrder) -> (p: int)
    ensures
        0 <= p <= s.len(),
        forall|i: int| 0 <= i < p ==> worse(is_bid, (#[trigger] s[i]).price, x.price),
        p < s.len() ==> !worse(is_bid, s[p].price, x.price),
        insert_at(s, is_bid, x) == s.insert(p, x),
    decreases s.len(),
{
    if s.len() == 0 || !worse(is_bid, s[0].price, x.price) {
        lemma_insert_at(s, is_bid, x, 0);
        0
    } else {
        let t = s.drop_first();
        let q = lemma_insert_point(t, is_bid, x);
        assert forall|i: int| 0 <= i < q + 1 implies worse(is_bid, (#[trigger] s[i]).price, x.price) by {
            if i > 0 {
                assert(s[i] == t[i - 1]);
            }
        }
        lemma_insert_at(s, is_bid, x, q + 1);
        q + 1
    }
}

/// A prefix of a side, with the same prices and sequence numbers and positive quantities,
/// is a side.
proof fn lemma_prefix_wf(opp: Seq<RestingOrder>, rest: Seq<RestingOrder>, is_bid: bool, sequence: u64)
    requires
        sequence < u64::MAX,
        side_wf(opp, is_bid, sequence),
        rest.len() <= opp.len(),
        forall|i: int|
            0 <= i < rest.len() ==> (#[trigger] rest[i]).price == opp[i].price
                && rest[i].order.timestamp == opp[i].order.timestamp && rest[i].order.quantity.wf()
                && rest[i].order.quantity.units() > 0,
    ensures
        side_wf(rest, is_bid, (sequence + 1) as u64),
{
    let next = (sequence + 1) as u64;
    assert forall|i: int, j: int| 0 <= i < j < rest.len() implies !worse(
        is_bid,
        #[trigger] rest[j].price,
        #[trigger] rest[i].price,
    ) by {
        assert(rest[i].price == opp[i].price);
        assert(rest[j].price == opp[j].price);
    }
    assert forall|i: int| 0 <= i < rest.len() implies resting_wf(#[trigger] rest[i], next) by {
        assert(resting_wf(opp[i], sequence));
    }
    assert forall|i: int, j: int|
        0 <= i < j < rest.len() && (#[trigger] rest[i]).price.units() == (#[trigger] rest[j]).price.units()
        implies rest[i].order.timestamp > rest[j].order.timestamp by {
        assert(rest[i].price == opp[i].price && rest[j].price == opp[j].price);
        assert(opp[i].price.units() == opp[j].price.units());
    }
    assert forall|i: int, j: int| 0 <= i < j < rest.len() implies (#[trigger] rest[i]).order.timestamp
        != (#[trigger] rest[j]).order.timestamp by {
        assert(rest[i].order.timestamp == opp[i].order.timestamp);
        assert(rest[j].order.timestamp == opp[j].order.timestamp);
    }
}

proof fn lemma_insert_sorted(own: Seq<RestingOrder>, is_bid: bool, entry: RestingOrder, p: int)
    requires
        0 <= p <= own.len(),
        sorted_side(own, is_bid),
        forall|i: int| 0 <= i < p ==> worse(is_bid, (#[trigger] own[i]).price, entry.price),
        p < own.len() ==> !worse(is_bid, own[p].price, entry.price),
    ensures
        sorted_side(own.insert(p, entry), is_bid),
{
    let own2 = own.insert(p, entry);
    own.insert_ensures(p, entry);
    assert forall|i: int, j: int| 0 <= i < j < own2.len() implies !worse(
        is_bid,
        #[trigger] own2[j].price,
        #[trigger] own2[i].price,
    ) by {
        if j < p {
            assert(own2[i] == own[i] && own2[j] == own[j]);
        } else if j == p {
            assert(own2[i] == own[i]);
        } else if i < p {
            assert(own2[i] == own[i] && own2[j] == own[j - 1]);
            assert(!worse(is_bid, own[j - 1].price, own[p].price) || j - 1 == p);
        } else if i == p {
            assert(own2[j] == own[j - 1]);
            assert(!worse(is_bid, own[j - 1].price, own[p].price) || j - 1 == p);
        } else {
            assert(own2[i] == own[i - 1] && own2[j] == own[j - 1]);
        }
    }
}

proof fn lemma_insert_fresh(own: Seq<RestingOrder>, sequence: u64, entry: RestingOrder, p: int)
    requires
        sequence < u64::MAX,
        0 <= p <= own.len(),
        forall|i: int| 0 <= i < own.len() ==> resting_wf(#[trigger] own[i], sequence),
        forall|i: int, j: int|
            0 <= i < j < own.len() ==> (#[trigger] own[i]).order.timestamp != (#[trigger] own[j]).order.timestamp,
        resting_wf(entry, (sequence + 1) as u64),
        entry.order.timestamp == sequence,
    ensures
        forall|i: int|
            0 <= i < own.insert(p, entry).len() ==> resting_wf(
                #[trigger] own.insert(p, entry)[i],
                (sequence + 1) as u64,
            ),
        forall|i: int, j: int|
            0 <= i < j < own.insert(p, entry).len() ==> (#[trigger] own.insert(p, entry)[i]).order.timestamp
                != (#[trigger] own.insert(p, entry)[j]).order.timestamp,
{
    let next = (sequence + 1) as u64;
    let own2 = own.insert(p, entry);
    own.insert_ensures(p, entry);
    assert forall|i: int| 0 <= i < own2.len() implies resting_wf(#[trigger] own2[i], next) by {
        if i < p {
            assert(own2[i] == own[i]);
        } else if i > p {
            assert(own2[i] == own[i - 1]);
        }
    }
    assert forall|i: int, j: int| 0 <= i < j < own2.len() implies (#[trigger] own2[i]).order.timestamp
        != (#[trigger] own2[j]).order.timestamp by {
        if j < p {
            assert(own2[i] == own[i] && own2[j] == own[j]);
        } else if j == p {
            assert(own2[i] == own[i]);
        } else if i < p {
            assert(own2[i] == own[i] && own2[j] == own[j - 1]);
        } else if i == p {
            assert(own2[j] == own[j - 1]);
        } else {
            assert(own2[i] == own[i - 1] && own2[j] == own[j - 1]);
        }
    }
}

proof fn lemma_insert_time(own: Seq<RestingOrder>, is_bid: bool, sequence: u64, entry: RestingOrder, p: int)
    requires
        0 <= p <= own.len(),
        time_ordered(own),
        forall|i: int| 0 <= i < own.len() ==> (#[trigger] own[i]).order.timestamp < sequence,
        forall|i: int| 0 <= i < p ==> worse(is_bid, (#[trigger] own[i]).price, entry.price),
        entry.order.timestamp == sequence,
    ensures
        time_ordered(own.insert(p, entry)),
{
    let own2 = own.insert(p, entry);
    own.insert_ensures(p, entry);
    assert forall|a: int, b: int|
        0 <= a < b < own2.len() && (#[trigger] own2[a]).price.units() == (#[trigger] own2[b]).price.units()
        implies own2[a].order.timestamp > own2[b].order.timestamp by {
        if b < p {
            assert(own2[a] == own[a] && own2[b] == own[b]);
        } else if b == p {
            assert(own2[a] == own[a]);
            assert(worse(is_bid, own[a].price, entry.price));
        } else if a < p {
            assert(own2[a] == own[a] && own2[b] == own[b - 1]);
        } else if a == p {
            assert(own2[b] == own[b - 1]);
        } else {
            assert(own2[a] == own[a - 1] && own2[b] == own[b - 1]);
        }
    }
}

/// Inserting an order with a fresh sequence number keeps a side well formed.
proof fn lemma_insert_wf(own: Seq<RestingOrder>, is_bid: bool, sequence: u64, entry: RestingOrder) -> (p: int)
    requires
        sequence < u64::MAX,
        side_wf(own, is_bid, sequence),
        resting_wf(entry, (sequence + 1) as u64),
        entry.order.timestamp == sequence,
    ensures
        0 <= p <= own.len(),
        insert_at(own, is_bid, entry) == own.insert(p, entry),
        side_wf(insert_at(own, is_bid, entry), is_bid, (sequence + 1) as u64),
        p < own.len() ==> !worse(is_bid, own[p].price, entry.price),
{
    let p = lemma_insert_point(own, is_bid, entry);
    lemma_insert_sorted(own, is_bid, entry, p);
    lemma_insert_fresh(own, sequence, entry, p);
    assert forall|i: int| 0 <= i < own.len() implies (#[trigger] own[i]).order.timestamp < sequence by {
        assert(resting_wf(own[i], sequence));
    }
    lemma_insert_time(own, is_bid, sequence, entry, p);
    p
}

/// After a limit order the side it rests on and the side it walked stay sorted, keep
/// distinct sequence numbers, and do not cross.
proof fn lemma_sides_after(
    own: Seq<RestingOrder>,
    opp: Seq<RestingOrder>,
    buys: bool,
    sequence: u64,
    price: PriceScalar,
    quantity: PriceScalar,
    id: u64,
    rest: Seq<RestingOrder>,
    remaining: PriceScalar,
)
    requires
        sequence < u64::MAX,
        side_wf(own, buys, sequence),
        side_wf(opp, !buys, sequence),
        distinct_between(own, opp),
        apart(own, opp, buys),
        price.wf(),
        walk_shape(opp, rest, remaining, buys, price, quantity),
    ensures
        ({
            let entry = RestingOrder {
                price,
                order: Order { id, quantity: remaining, timestamp: sequence },
            };
            let own2 = if remaining.units() > 0 {
                insert_at(own, buys, entry)
            } else {
                own
            };
            &&& side_wf(own2, buys, (sequence + 1) as u64)
            &&& side_wf(rest, !buys, (sequence + 1) as u64)
            &&& distinct_between(own2, rest)
            &&& apart(own2, rest, buys)
            &&& remaining.units() > 0 ==> forall|i: int|
                0 <= i < insert_at(own, buys, entry).len() ==> (#[trigger] insert_at(own, buys, entry)[i])
                    == entry || exists|j: int| 0 <= j < own.len() && own[j] == insert_at(own, buys, entry)[i]
        }),
{
    let next = (sequence + 1) as u64;
    let entry = RestingOrder {
        price,
        order: Order { id, quantity: remaining, timestamp: sequence },
    };
    lemma_prefix_wf(opp, rest, !buys, sequence);
    if rest.len() > 0 {
        assert(rest.last().price == opp[rest.len() - 1].price);
        assert(!worse(!buys, opp.last().price, opp[rest.len() - 1].price) || rest.len()
            == opp.len());
    }
    if remaining.units() > 0 {
        let own2 = insert_at(own, buys, entry);
        let p = lemma_insert_wf(own, buys, sequence, entry);
        own.insert_ensures(p, entry);
        assert(distinct_between(own2, rest)) by {
            assert forall|i: int, j: int| 0 <= i < own2.len() && 0 <= j < rest.len() implies (#[trigger] own2[i]).order.timestamp
                != (#[trigger] rest[j]).order.timestamp by {
                assert(rest[j].order.timestamp == opp[j].order.timestamp);
                assert(resting_wf(opp[j], sequence));
                if i < p {
                    assert(own2[i] == own[i]);
                } else if i > p {
                    assert(own2[i] == own[i - 1]);
                }
            }
        }
        if own2.len() > 0 && rest.len() > 0 {
            let last = own2.len() - 1;
            if last != p {
                assert(own2[last] == own[last - 1]);
            }
        }
        assert forall|i: int| 0 <= i < own2.len() implies (#[trigger] own2[i]) == entry || exists|j: int|
            0 <= j < own.len() && own[j] == own2[i] by {
            if i < p {
                assert(own2[i] == own[i]);
            } else if i > p {
                assert(own2[i] == own[i - 1]);
            }
        }
    } else {
        assert(distinct_between(own, rest)) by {
            assert forall|i: int, j: int| 0 <= i < own.len() && 0 <= j < rest.len() implies (#[trigger] own[i]).order.timestamp
                != (#[trigger] rest[j]).order.timestamp by {
                assert(rest[j].order.timestamp == opp[j].order.timestamp);
            }
        }
        assert forall|i: int| 0 <= i < own.len() implies resting_wf(#[trigger] own[i], next) by {
            assert(resting_wf(own[i], sequence));
        }
    }
}

/// A validated limit order whose walk leaves `w` takes a well-formed book to a well-formed
/// book; in particular the best bid stays below the best ask.
proof fn lemma_book_after(b: BookView, side: Side, price: PriceScalar, quantity: PriceScalar, id: u64)
    requires
        b.wf(),
        price.wf(),
        quantity.wf(),
        0 < quantity.units() <= b.max_quantity.units(),
        b.min_price.units() <= price.units() <= b.max_price.units(),
        b.sequence < u64::MAX,
        walk(opposing(b, side), side == Side::Buy, price, quantity, id) matches Some(w)
            && walk_shape(opposing(b, side), w.rest, w.remaining, side == Side::Buy, price, quantity),
    ensures
        place_spec(b, side, price, quantity, id).1.wf(),
{
    let after = place_spec(b, side, price, quantity, id).1;
    let w = walk(opposing(b, side), side == Side::Buy, price, quantity, id)->0;
    let next = (b.sequence + 1) as u64;
    assert forall|i: int| 0 <= i < b.bids.len() implies resting_wf(#[trigger] b.bids[i], next) by {
        assert(resting_wf(b.bids[i], b.sequence));
    }
    assert forall|i: int| 0 <= i < b.asks.len() implies resting_wf(#[trigger] b.asks[i], next) by {
        assert(resting_wf(b.asks[i], b.sequence));
    }
    let entry = RestingOrder {
        price,
        order: Order { id, quantity: w.remaining, timestamp: b.sequence },
    };
    if side == Side::Buy {
        lemma_sides_after(b.bids, b.asks, true, b.sequence, price, quantity, id, w.rest, w.remaining);
        let own2 = if w.remaining.units() > 0 {
            insert_at(b.bids, true, entry)
        } else {
            b.bids
        };
        assert(after.bids == own2);
        assert forall|i: int| 0 <= i < after.bids.len() implies (#[trigger] after.bids[i]).order.quantity.units()
            <= after.max_quantity.units() by {
            if w.remaining.units() > 0 && own2[i] != entry {
                assert(exists|j: int| 0 <= j < b.bids.len() && b.bids[j] == own2[i]);
                let j = choose|j: int| 0 <= j < b.bids.len() && b.bids[j] == own2[i];
                assert(b.bids[j].order.quantity.units() <= b.max_quantity.units());
            } else if w.remaining.units() <= 0 {
                assert(b.bids[i].order.quantity.units() <= b.max_quantity.units());
            }
        }
        assert forall|i: int| 0 <= i < after.asks.len() implies (#[trigger] after.asks[i]).order.quantity.units()
            <= after.max_quantity.units() by {
            assert(b.asks[i].order.quantity.units() <= b.max_quantity.units());
        }
    } else {
        assert(distinct_between(b.asks, b.bids)) by {
            assert forall|i: int, j: int| 0 <= i < b.asks.len() && 0 <= j < b.bids.len() implies (#[trigger] b.asks[i]).order.timestamp
                != (#[trigger] b.bids[j]).order.timestamp by {
                assert(b.bids[j].order.timestamp != b.asks[i].order.timestamp);
            }
        }
        lemma_sides_after(b.asks, b.bids, false, b.sequence, price, quantity, id, w.rest, w.remaining);
        assert forall|i: int, j: int| 0 <= i < after.bids.len() && 0 <= j < after.asks.len() implies (#[trigger] after.bids[i]).order.timestamp
            != (#[trigger] after.asks[j]).order.timestamp by {
            assert(after.asks[j].order.timestamp != after.bids[i].order.timestamp);
        }
        let own2 = if w.remaining.units() > 0 {
            insert_at(b.asks, false, entry)
        } else {
            b.asks
        };
        assert(after.asks == own2);
        assert forall|i: int| 0 <= i < after.asks.len() implies (#[trigger] after.asks[i]).order.quantity.units()
            <= after.max_quantity.units() by {
            if w.remaining.units() > 0 && own2[i] != entry {
                assert(exists|j: int| 0 <= j < b.asks.len() && b.asks[j] == own2[i]);
                let j = choose|j: int| 0 <= j < b.asks.len() && b.asks[j] == own2[i];
                assert(b.asks[j].order.quantity.units() <= b.max_quantity.units());
            } else if w.remaining.units() <= 0 {
                assert(b.asks[i].order.quantity.units() <= b.max_quantity.units());
            }
        }
        assert forall|i: int| 0 <= i < after.bids.len() implies (#[trigger] after.bids[i]).order.quantity.units()
            <= after.max_quantity.units() by {
            assert(b.bids[i].order.quantity.units() <= b.max_quantity.units());
        }
    }
}

/// A central limit order book for one instrument: bids and asks matched under price-time
/// priority.
pub struct OrderBook {
    bids: Vec<RestingOrder>,
    asks: Vec<RestingOrder>,
    sequence: u64,
    min_price: PriceScalar,
    max_price: PriceScalar,
    max_quantity: PriceScalar,
}

impl View for OrderBook {
    type V = BookView;

    closed spec fn view(&self) -> BookView {
        BookView {
            bids: self.bids@,
            asks: self.asks@,
            sequence: self.sequence,
            min_price: self.min_price,
            max_price: self.max_price,
            max_quantity: self.max_quantity,
        }
    }
}

/// `p` ranks strictly below `q` on a side.
fn ranks_below(is_bid: bool, p: &PriceScalar, q: &PriceScalar) -> (r: bool)
    requires
        p.wf(),
        q.wf(),
    ensures
        r == worse(is_bid, *p, *q),
{
    if is_bid {
        p.lt(q)
    } else {
        p.gt(q)
    }
}

/// Inserts `x` behind every order that ranks strictly below it.
fn insert_resting(s: &mut Vec<RestingOrder>, is_bid: bool, x: RestingOrder)
    requires
        x.price.wf(),
        side_values_wf(old(s)@),
    ensures
        final(s)@ == insert_at(old(s)@, is_bid, x),
{
    let mut p: usize = 0;
    while p < s.len() && ranks_below(is_bid, &s[p].price, &x.price)
        invariant
            p <= s.len(),
            x.price.wf(),
            side_values_wf(s@),
            forall|i: int| 0 <= i < p ==> worse(is_bid, (#[trigger] s@[i]).price, x.price),
        decreases s.len() - p,
    {
        p = p + 1;
    }
    proof {
        lemma_insert_at(s@, is_bid, x, p as int);
    }
    s.insert(p, x);
}

proof fn lemma_traded_push(ts: Seq<Trade>, t: Trade)
    ensures
        traded(ts.push(t)) == traded(ts) + t.quantity.units(),
{
    assert(seq![t].drop_first() =~= Seq::<Trade>::empty());
    assert(traded(Seq::<Trade>::empty()) == 0);
    assert(ts.push(t) =~= ts + seq![t]);
    lemma_traded_concat(ts, seq![t]);
}

/// Walks `side` from its best order, filling a taker of `quantity` with limit `limit`.
/// Returns the trades and what is left of the taker.
fn match_against(
    side: &mut Vec<RestingOrder>,
    taker_buys: bool,
    limit: PriceScalar,
    quantity: PriceScalar,
    taker_id: u64,
) -> (r: Option<(Vec<Trade>, PriceScalar)>)
    requires
        limit.wf(),
        quantity.wf(),
        quantity.units() > 0,
        side_bounded(old(side)@),
    ensures
        r is Some,
        match walk(old(side)@, taker_buys, limit, quantity, taker_id) {
            Some(w) => r matches Some(res) && res.0@ == w.trades && res.1 == w.remaining
                && final(side)@ == w.rest,
            None => r is None && final(side)@ == old(side)@,
        },
        r matches Some(res) ==> {
            &&& walk_shape(old(side)@, final(side)@, res.1, taker_buys, limit, quantity)
            &&& forall|k: int|
                0 <= k < res.0@.len() ==> crosses(taker_buys, limit, (#[trigger] res.0@[k]).price)
                    && res.0@[k].taker_id == taker_id && res.0@[k].quantity.units() > 0
                    && exists|j: int|
                    0 <= j < old(side)@.len() && old(side)@[j].price == res.0@[k].price
                        && old(side)@[j].order.id == res.0@[k].maker_id
            &&& walk_exact(old(side)@, taker_buys, limit, quantity, taker_id) ==> traded(res.0@)
                + res.1.units() == quantity.units()
        },
{
    let ghost s0 = side@;
    let mut trades: Vec<Trade> = Vec::new();
    let mut remaining = quantity;
    proof {
        assert(traded(Seq::<Trade>::empty()) == 0);
        assert(trades@ =~= Seq::<Trade>::empty());
        assert(side@ =~= s0.subrange(0, side.len() as int));
    }
    loop
        invariant
            s0 == old(side)@,
            side.len() <= s0.len(),
            side@ == s0.subrange(0, side.len() as int),
            side_bounded(s0),
            remaining.wf(),
            0 <= remaining.units() <= quantity.units(),
            limit.wf(),
            walk(s0, taker_buys, limit, quantity, taker_id) == prepend(
                trades@,
                walk(side@, taker_buys, limit, remaining, taker_id),
            ),
            forall|k: int|
                0 <= k < trades@.len() ==> crosses(taker_buys, limit, (#[trigger] trades@[k]).price)
                    && trades@[k].taker_id == taker_id && trades@[k].quantity.units() > 0
                    && exists|j: int|
                    0 <= j < s0.len() && s0[j].price == trades@[k].price && s0[j].order.id
                        == trades@[k].maker_id,
            walk_exact(s0, taker_buys, limit, quantity, taker_id) ==> walk_exact(
                side@,
                taker_buys,
                limit,
                remaining,
                taker_id,
            ) && traded(trades@) + remaining.units() == quantity.units(),
        ensures
            walk(s0, taker_buys, limit, quantity, taker_id) == Some(
                WalkOutcome { trades: trades@, rest: side@, remaining },
            ),
            remaining.units() > 0 ==> (side@.len() == 0 || !crosses(
                taker_buys,
                limit,
                side@.last().price,
            )),
            walk_exact(s0, taker_buys, limit, quantity, taker_id) ==> traded(trades@)
                + remaining.units() == quantity.units(),
        decreases side.len(),
    {
        if !remaining.is_positive() || side.len() == 0 {
            proof {
                assert(trades@ + Seq::<Trade>::empty() =~= trades@);
            }
            break;
        }
        let n = side.len();
        let m = side[n - 1];
        let reachable = if taker_buys {
            m.price.le(&limit)
        } else {
            m.price.ge(&limit)
        };
        if !reachable {
            proof {
                assert(trades@ + Seq::<Trade>::empty() =~= trades@);
            }
            break;
        }
        proof {
            assert(m == s0[n - 1]);
        }
        let fill = remaining.min(m.order.quantity);
        let trade = Trade { price: m.price, quantity: fill, maker_id: m.order.id, taker_id };
        let left = remaining.sub_rounded(fill);
        let maker_left = m.order.quantity.sub_rounded(fill);
        let (left, maker_left) = match (left, maker_left) {
            (Some(a), Some(b)) => (a, b),
            _ => {
                proof {
                    assert(false);
                }
                return None;
            },
        };
        proof {
            assert(side@.drop_last() =~= s0.subrange(0, n - 1));
            lemma_traded_push(trades@, trade);
        }
        let ghost before = trades@;
        trades.push(trade);
        proof {
            assert forall|k: int| 0 <= k < trades@.len() implies crosses(
                taker_buys,
                limit,
                (#[trigger] trades@[k]).price,
            ) && trades@[k].taker_id == taker_id && trades@[k].quantity.units() > 0 && exists|j: int|
                0 <= j < s0.len() && s0[j].price == trades@[k].price && s0[j].order.id
                    == trades@[k].maker_id by {
                if k < before.len() {
                    assert(trades@[k] == before[k]);
                } else {
                    assert(s0[n - 1].price == trades@[k].price);
                }
            }
        }
        if !maker_left.is_positive() {
            side.pop();
            remaining = left;
            proof {
                assert(before + (seq![trade] + walk(side@, taker_buys, limit, remaining, taker_id)->0.trades)
                    =~= trades@ + walk(side@, taker_buys, limit, remaining, taker_id)->0.trades);
            }
        } else {
            let kept = RestingOrder {
                price: m.price,
                order: Order {
                    id: m.order.id,
                    quantity: maker_left,
                    timestamp: m.order.timestamp,
                },
            };
            proof {
                assert(before + seq![trade] =~= trades@);
                assert(side@.drop_last().push(kept) =~= side@.update(n - 1, kept));
                assert(walk(side@, taker_buys, limit, remaining, taker_id) == Some(
                    WalkOutcome {
                        trades: seq![trade],
                        rest: side@.drop_last().push(kept),
                        remaining: left,
                    },
                ));
                // The maker kept some quantity, so the fill was the whole taker remainder.
                lemma_sub_same_value(m.order.quantity, m.order.quantity);
                lemma_sub_same_value(remaining, remaining);
                assert(fill == remaining);
            }
            side.set(n - 1, kept);
            proof {
                assert forall|i: int| 0 <= i < side@.len() implies (#[trigger] side@[i]).price
                    == s0[i].price && side@[i].order.id == s0[i].order.id
                    && side@[i].order.timestamp == s0[i].order.timestamp
                    && side@[i].order.quantity.wf() && 0 < side@[i].order.quantity.units()
                    <= s0[i].order.quantity.units() by {}
            }
            return Some((trades, left));
        }
    }
    proof {
        assert forall|i: int| 0 <= i < side@.len() implies (#[trigger] side@[i]).price
            == s0[i].price && side@[i].order.id == s0[i].order.id && side@[i].order.timestamp
            == s0[i].order.timestamp && side@[i].order.quantity.wf() && 0
            < side@[i].order.quantity.units() <= s0[i].order.quantity.units() by {
            assert(side@[i] == s0[i]);
        }
    }
    Some((trades, remaining))
}

/// The start of the run of equal prices that ends at `s[i - 1]`, and its total.
fn level_ending_at(s: &Vec<RestingOrder>, i: usize) -> (r: (usize, Option<PriceScalar>))
    requires
        0 < i <= s.len(),
        side_bounded(s@),
    ensures
        r.0 < i,
        r.1 is Some,
        levels(s@, i as int) == seq![(s@[i - 1].price, r.1)] + levels(s@, r.0 as int),
{
    let top = s[i - 1].price;
    let mut j: usize = i - 1;
    while j > 0 && s[j - 1].price.same_value(&top)
        invariant
            j < i <= s.len(),
            side_bounded(s@),
            top == s@[i - 1].price,
            forall|k: int| j <= k < i ==> (#[trigger] s@[k]).price.units() == top.units(),
        decreases j,
    {
        j = j - 1;
    }
    proof {
        lemma_pow10_28();
        assert(quantity_cap() == 10000000000000000000000000000000000int) by (nonlinear_arith)
            requires
                pow10(28) == 10000000000000000000000000000int,
        ;
        assert(MAX_MANTISSA * pow10(28) == 792281625142643375935439503350000000000000000000000000000int)
            by (nonlinear_arith)
            requires
                pow10(28) == 10000000000000000000000000000int,
        ;
    }
    let mut total: PriceScalar = s[j].order.quantity;
    let mut t: usize = j + 1;
    while t < i
        invariant
            j < t <= i <= s.len(),
            side_bounded(s@),
            Some(total) == sum_up(s@, j as int, t as int),
            total.wf(),
            0 <= total.units() <= (t - j) * 10000010000000000000000000000000000int,
            pow10(28) == 10000000000000000000000000000int,
            quantity_cap() == 10000000000000000000000000000000000int,
            MAX_MANTISSA * pow10(28) == 792281625142643375935439503350000000000000000000000000000int,
        decreases i - t,
    {
        proof {
            assert(t - j <= 18446744073709551615);
            assert((t - j) * 10000010000000000000000000000000000int
                <= 18446744073709551615 * 10000010000000000000000000000000000int) by (nonlinear_arith)
                requires
                    t - j <= 18446744073709551615,
            ;
            assert(total.units() + s@[t as int].order.quantity.units() <= MAX_MANTISSA * pow10(28));
        }
        total = match total.add_rounded(s[t].order.quantity) {
            Some(x) => x,
            None => {
                proof {
                    assert(false);
                }
                total
            },
        };
        t = t + 1;
    }
    proof {
        lemma_levels_run(s@, j as int, i as int);
    }
    (j, Some(total))
}

/// The first `limit` levels of a side, best first.
fn levels_of(s: &Vec<RestingOrder>, limit: usize) -> (r: Vec<(PriceScalar, PriceScalar)>)
    requires
        side_bounded(s@),
    ensures
        r@.len() == if limit < side_levels(s@).len() {
            limit as int
        } else {
            side_levels(s@).len() as int
        },
        forall|k: int|
            0 <= k < r@.len() ==> side_levels(s@)[k] == ((#[trigger] r@[k]).0, Some(r@[k].1)),
{
    let mut out: Vec<(PriceScalar, PriceScalar)> = Vec::new();
    let mut i: usize = s.len();
    let ghost mut pre: Seq<(PriceScalar, Option<PriceScalar>)> = Seq::empty();
    proof {
        assert(side_levels(s@) =~= pre + levels(s@, i as int));
    }
    while i > 0 && out.len() < limit
        invariant
            i <= s.len(),
            out.len() <= limit,
            side_bounded(s@),
            pre.len() == out.len(),
            side_levels(s@) == pre + levels(s@, i as int),
            forall|k: int| 0 <= k < out@.len() ==> pre[k] == ((#[trigger] out@[k]).0, Some(out@[k].1)),
        decreases i,
    {
        let (j, total) = level_ending_at(s, i);
        let t = match total {
            Some(t) => t,
            None => {
                proof {
                    assert(false);
                }
                return out;
            },
        };
        let ghost item = (s@[i - 1].price, total);
        proof {
            assert(pre + levels(s@, i as int) =~= pre.push(item) + levels(s@, j as int));
            pre = pre.push(item);
        }
        out.push((s[i - 1].price, t));
        i = j;
    }
    proof {
        if i == 0 {
            assert(levels(s@, 0) =~= Seq::<(PriceScalar, Option<PriceScalar>)>::empty());
            assert(side_levels(s@) =~= pre);
        }
        assert forall|k: int| 0 <= k < out@.len() implies side_levels(s@)[k] == (
        (#[trigger] out@[k]).0, Some(out@[k].1)) by {
            assert(side_levels(s@)[k] == pre[k]);
        }
    }
    out
}

/// The number of levels of a side.
fn depth_of(s: &Vec<RestingOrder>) -> (r: usize)
    requires
        side_bounded(s@),
    ensures
        r == side_levels(s@).len(),
{
    let mut n: usize = 0;
    let mut i: usize = s.len();
    while i > 0
        invariant
            i <= s.len(),
            side_bounded(s@),
            n + levels(s@, i as int).len() == side_levels(s@).len(),
            n + i <= s.len(),
        decreases i,
    {
        let (j, _) = level_ending_at(s, i);
        n = n + 1;
        i = j;
    }
    n
}

/// The best level of a side.
fn best_of(s: &Vec<RestingOrder>) -> (r: Option<(PriceScalar, PriceScalar)>)
    requires
        side_bounded(s@),
    ensures
        r == best_level(s@),
        r is Some <==> s@.len() > 0,
{
    if s.len() == 0 {
        return None;
    }
    let (_, total) = level_ending_at(s, s.len());
    match total {
        Some(t) => Some((s[s.len() - 1].price, t)),
        None => None,
    }
}

/// Every order of a well-formed book is bounded.
proof fn lemma_book_bounded(b: BookView)
    requires
        b.wf(),
    ensures
        side_bounded(b.bids),
        side_bounded(b.asks),
{
    assert forall|i: int| 0 <= i < b.bids.len() implies (#[trigger] b.bids[i]).price.wf()
        && b.bids[i].order.quantity.wf() && 0 < b.bids[i].order.quantity.units() <= quantity_cap() by {
        assert(resting_wf(b.bids[i], b.sequence));
    }
    assert forall|i: int| 0 <= i < b.asks.len() implies (#[trigger] b.asks[i]).price.wf()
        && b.asks[i].order.quantity.wf() && 0 < b.asks[i].order.quantity.units() <= quantity_cap() by {
        assert(resting_wf(b.asks[i], b.sequence));
    }
}

impl OrderBook {
    /// The book's state is consistent.
    pub open spec fn wf(&self) -> bool {
        self@.wf()
    }

    /// An empty book accepting prices in [1, 1_000_000] and quantities up to 1_000_000.
    pub fn new() -> (r: OrderBook)
        ensures
            r.wf(),
            r@.bids.len() == 0,
            r@.asks.len() == 0,
            r@.sequence == 0,
            r@.min_price.units() == pow10(28),
            r@.max_price.units() == 1_000_000 * pow10(28),
            r@.max_quantity.units() == 1_000_000 * pow10(28),
    {
        OrderBook {
            bids: Vec::new(),
            asks: Vec::new(),
            sequence: 0,
            min_price: PriceScalar::from_int(1),
            max_price: PriceScalar::from_int(1_000_000),
            max_quantity: PriceScalar::from_int(1_000_000),
        }
    }

    /// Places a limit order: validates it, matches it against the opposing side best price
    /// first and, at one price, oldest order first, each trade at the maker's price; any
    /// remainder rests on the order's own side behind the orders already at its price.
    /// Matching never fails once the order is valid; a rejected order changes nothing.
    pub fn place_order(&mut self, side: Side, price: PriceScalar, quantity: PriceScalar, id: u64) -> (r:
        Result<Vec<Trade>, OrderBookError>)
        requires
            old(self).wf(),
            price.wf(),
            quantity.wf(),
        ensures
            final(self).wf(),
            final(self)@.uncrossed(),
            final(self)@ == place_spec(old(self)@, side, price, quantity, id).1,
            match r {
                Ok(ts) => place_spec(old(self)@, side, price, quantity, id).0 == Ok::<Seq<Trade>, OrderBookError>(ts@),
                Err(e) => place_spec(old(self)@, side, price, quantity, id).0 == Err::<Seq<Trade>, OrderBookError>(e),
            },
            // Validation decides alone whether the order is accepted.
            (0 < quantity.units() <= old(self)@.max_quantity.units() && old(self)@.min_price.units()
                <= price.units() <= old(self)@.max_price.units() && old(self)@.sequence < u64::MAX)
                <==> r is Ok,
            r is Err ==> final(self)@ == old(self)@,
            r is Ok ==> final(self)@.sequence == old(self)@.sequence + 1,
            // A remainder rests with the counter's old value, below the new counter.
            r is Ok && walk(
                opposing(old(self)@, side),
                side == Side::Buy,
                price,
                quantity,
                id,
            )->0.remaining.units() > 0 ==> exists|k: int|
                0 <= k < own_side(final(self)@, side).len() && own_side(final(self)@, side)[k] == (
                RestingOrder {
                    price,
                    order: Order {
                        id,
                        quantity: walk(
                            opposing(old(self)@, side),
                            side == Side::Buy,
                            price,
                            quantity,
                            id,
                        )->0.remaining,
                        timestamp: old(self)@.sequence,
                    },
                }),
            // Trades are at makers' prices, at or better than the limit.
            r matches Ok(ts) ==> forall|k: int|
                0 <= k < ts@.len() ==> {
                    &&& exists|j: int|
                        0 <= j < opposing(old(self)@, side).len() && opposing(old(self)@, side)[j].price
                            == (#[trigger] ts@[k]).price && opposing(old(self)@, side)[j].order.id
                            == ts@[k].maker_id
                    &&& side == Side::Buy ==> ts@[k].price.units() <= price.units()
                    &&& side == Side::Sell ==> ts@[k].price.units() >= price.units()
                    &&& ts@[k].taker_id == id
                    &&& ts@[k].quantity.units() > 0
                },
            // Quantity is conserved whenever every remainder is exact.
            r matches Ok(ts) ==> (walk_exact(
                opposing(old(self)@, side),
                side == Side::Buy,
                price,
                quantity,
                id,
            ) ==> traded(ts@) + walk(
                opposing(old(self)@, side),
                side == Side::Buy,
                price,
                quantity,
                id,
            )->0.remaining.units() == quantity.units()),
    {
        proof {
            lemma_book_bounded(self@);
        }
        if !quantity.is_positive() || quantity.gt(&self.max_quantity) {
            return Err(OrderBookError::InvalidQuantity);
        }
        if price.lt(&self.min_price) || price.gt(&self.max_price) {
            return Err(OrderBookError::InvalidPrice);
        }
        if self.sequence == u64::MAX {
            return Err(OrderBookError::OverflowError);
        }
        let ghost b = self@;
        proof {
            lemma_pow10_28();
        }
        let timestamp = self.sequence;
        self.sequence = self.sequence + 1;
        let buys = match side {
            Side::Buy => true,
            Side::Sell => false,
        };
        let outcome = if buys {
            match_against(&mut self.asks, true, price, quantity, id)
        } else {
            match_against(&mut self.bids, false, price, quantity, id)
        };
        let (trades, remaining) = match outcome {
            Some(x) => x,
            None => {
                proof {
                    assert(false);
                }
                return Err(OrderBookError::OverflowError);
            },
        };
        proof {
            lemma_book_after(b, side, price, quantity, id);
        }
        let ghost mut pos: int = 0;
        if remaining.is_positive() {
            let entry = RestingOrder { price, order: Order { id, quantity: remaining, timestamp } };
            proof {
                let own = own_side(b, side);
                let p = lemma_insert_point(own, buys, entry);
                own.insert_ensures(p, entry);
                pos = p;
            }
            if buys {
                insert_resting(&mut self.bids, true, entry);
            } else {
                insert_resting(&mut self.asks, false, entry);
            }
            proof {
                assert(own_side(self@, side)[pos] == entry);
            }
        }
        Ok(trades)
    }

    /// The best bid's price and the total quantity resting at it.
    pub fn best_buy(&self) -> (r: Option<(PriceScalar, PriceScalar)>)
        requires
            self.wf(),
        ensures
            r == best_level(self@.bids),
            r is Some <==> self@.bids.len() > 0,
    {
        proof {
            lemma_book_bounded(self@);
        }
        best_of(&self.bids)
    }

    /// The best ask's price and the total quantity resting at it.
    pub fn best_sell(&self) -> (r: Option<(PriceScalar, PriceScalar)>)
        requires
            self.wf(),
        ensures
            r == best_level(self@.asks),
            r is Some <==> self@.asks.len() > 0,
    {
        proof {
            lemma_book_bounded(self@);
        }
        best_of(&self.asks)
    }

    /// The number of distinct bid prices.
    pub fn buy_depth(&self) -> (r: usize)
        requires
            self.wf(),
        ensures
            r == side_levels(self@.bids).len(),
    {
        proof {
            lemma_book_bounded(self@);
        }
        depth_of(&self.bids)
    }

    /// The number of distinct ask prices.
    pub fn sell_depth(&self) -> (r: usize)
        requires
            self.wf(),
        ensures
            r == side_levels(self@.asks).len(),
    {
        proof {
            lemma_book_bounded(self@);
        }
        depth_of(&self.asks)
    }

    /// Up to `limit` bid levels, best first, as (price, total quantity).
    pub fn buy_levels(&self, limit: usize) -> (r: Vec<(PriceScalar, PriceScalar)>)
        requires
            self.wf(),
        ensures
            r@.len() == if limit < side_levels(self@.bids).len() {
                limit as int
            } else {
                side_levels(self@.bids).len() as int
            },
            forall|k: int|
                0 <= k < r@.len() ==> side_levels(self@.bids)[k] == ((#[trigger] r@[k]).0, Some(
                    r@[k].1,
                )),
    {
        proof {
            lemma_book_bounded(self@);
        }
        levels_of(&self.bids, limit)
    }

    /// Up to `limit` ask levels, best first, as (price, total quantity).
    pub fn sell_levels(&self, limit: usize) -> (r: Vec<(PriceScalar, PriceScalar)>)
        requires
            self.wf(),
        ensures
            r@.len() == if limit < side_levels(self@.asks).len() {
                limit as int
            } else {
                side_levels(self@.asks).len() as int
            },
            forall|k: int|
                0 <= k < r@.len() ==> side_levels(self@.asks)[k] == ((#[trigger] r@[k]).0, Some(
                    r@[k].1,
                )),
    {
        proof {
            lemma_book_bounded(self@);
        }
        levels_of(&self.asks, limit)
    }

    /// The sequence number the next accepted order will carry.
    pub fn sequence(&self) -> (r: u64)
        ensures
            r == self@.sequence,
    {
        self.sequence
    }

    /// No order rests on either side.
    pub fn is_empty(&self) -> (r: bool)
        ensures
            r == (self@.bids.len() == 0 && self@.asks.len() == 0),
    {
        self.bids.len() == 0 && self.asks.len() == 0
    }

    /// Removes every resting order; the sequence counter and the bounds stay.
    pub fn clear(&mut self)
        requires
            old(self).wf(),
        ensures
            final(self).wf(),
            final(self)@.bids.len() == 0,
            final(self)@.asks.len() == 0,
            final(self)@.sequence == old(self)@.sequence,
            final(self)@.min_price == old(self)@.min_price,
            final(self)@.max_price == old(self)@.max_price,
            final(self)@.max_quantity == old(self)@.max_quantity,
    {
        self.bids.clear();
        self.asks.clear();
    }
}

/// The side an order of `side` rests on.
pub open spec fn own_side(b: BookView, side: Side) -> Seq<RestingOrder> {
    if side == Side::Buy {
        b.bids
    } else {
        b.asks
    }
}

/// The side an order of `side` walks.
pub open spec fn opposing(b: BookView, side: Side) -> Seq<RestingOrder> {
    if side == Side::Buy {
        b.asks
    } else {
        b.bids
    }
}

/// On an empty book, an order followed by an opposite order at the same price and quantity
/// gives exactly one trade of that quantity at that price, and leaves the book empty. The
/// one fact used of the decimal crate is that a value minus itself is zero, which
/// `PriceScalar::sub_rounded` states for every value.
pub proof fn lemma_round_trip(
    b: BookView,
    side: Side,
    price: PriceScalar,
    quantity: PriceScalar,
    first: u64,
    second: u64,
)
    requires
        b.wf(),
        b.bids.len() == 0,
        b.asks.len() == 0,
        price.wf(),
        quantity.wf(),
        0 < quantity.units() <= b.max_quantity.units(),
        b.min_price.units() <= price.units() <= b.max_price.units(),
        b.sequence < u64::MAX - 1,
        rounded_difference_of(quantity, quantity) matches Some(z) && z.units() == 0,
    ensures
        ({
            let opposite = if side == Side::Buy {
                Side::Sell
            } else {
                Side::Buy
            };
            let (r1, b1) = place_spec(b, side, price, quantity, first);
            let (r2, b2) = place_spec(b1, opposite, price, quantity, second);
            &&& r1 == Ok::<Seq<Trade>, OrderBookError>(Seq::empty())
            &&& r2 == Ok::<Seq<Trade>, OrderBookError>(
                seq![Trade { price, quantity, maker_id: first, taker_id: second }],
            )
            &&& b2.bids.len() == 0
            &&& b2.asks.len() == 0
        }),
{
    let buys = side == Side::Buy;
    let opposite = if buys {
        Side::Sell
    } else {
        Side::Buy
    };
    let empty = Seq::<RestingOrder>::empty();
    assert(walk(empty, buys, price, quantity, first) == Some(
        WalkOutcome { trades: Seq::empty(), rest: empty, remaining: quantity },
    ));
    let entry = RestingOrder {
        price,
        order: Order { id: first, quantity, timestamp: b.sequence },
    };
    assert(insert_at(empty, buys, entry) == seq![entry]);
    let (r1, b1) = place_spec(b, side, price, quantity, first);
    assert(b1.sequence == b.sequence + 1);
    let own = seq![entry];
    assert(if buys { b1.bids == own && b1.asks == empty } else { b1.asks == own && b1.bids == empty });
    assert(fill_of(quantity, quantity) == quantity);
    assert(own.last() == entry);
    assert(own.drop_last() =~= empty);
    let zero = rounded_difference_of(quantity, quantity)->0;
    assert(walk(empty, !buys, price, zero, second) == Some(
        WalkOutcome { trades: Seq::empty(), rest: empty, remaining: zero },
    ));
    let trade = Trade { price, quantity, maker_id: first, taker_id: second };
    assert(seq![trade] + Seq::<Trade>::empty() =~= seq![trade]);
    assert(walk(own, !buys, price, quantity, second) == Some(
        WalkOutcome { trades: seq![trade], rest: empty, remaining: zero },
    ));
}

impl Default for OrderBook {
    fn default() -> (r: OrderBook)
        ensures
            r.wf(),
            r@.bids.len() == 0,
            r@.asks.len() == 0,
            r@.sequence == 0,
    {
        OrderBook::new()
    }
}

} // verus!
