//! Price-level buckets and the fill algorithm.
//!
//! A `Limit` is the bucket of all resting orders at one exact price on one
//! side of a book; an `OrderBook` owns the bid-side and ask-side buckets of
//! one market and matches incoming market orders against them in price
//! priority.

use vstd::prelude::*;
use crate::price::Price;

verus! {

/// Whether an order buys (bid) or sells (ask).
#[derive(Debug, Clone, Copy, PartialEq, Eq, Structural)]
pub enum BidorAsk {
    Bid,
    Ask,
}

/// A bid or ask request with a remaining size, counted in atoms of the
/// traded asset. Only the fill algorithm shrinks the size; an order is
/// filled exactly when the size reaches zero.
#[derive(Debug, Clone, Copy, PartialEq, Eq, Structural)]
pub struct Order {
    pub size: u64,
    pub bid_or_ask: BidorAsk,
}

impl Order {
    /// `size` counts atoms of the traded asset. A zero-size order is a
    /// caller contract violation: it is ruled out here, at construction,
    /// rather than let into the fill loop.
    pub fn new(size: u64, bid_or_ask: BidorAsk) -> (r: Order)
        requires
            size > 0,
        ensures
            r == (Order { size, bid_or_ask }),
    {
        Order { size, bid_or_ask }
    }

    /// True exactly when nothing of the order remains.
    pub fn is_filled(&self) -> (r: bool)
        ensures
            r == (self.size == 0),
    {
        self.size == 0
    }
}

/// Sum of the remaining sizes of a sequence of orders.
pub open spec fn sum_sizes(orders: Seq<Order>) -> int
    decreases orders.len(),
{
    if orders.len() == 0 {
        0
    } else {
        orders[0].size + sum_sizes(orders.skip(1))
    }
}

pub proof fn lemma_sum_sizes_push(orders: Seq<Order>, order: Order)
    ensures
        sum_sizes(orders.push(order)) == sum_sizes(orders) + order.size,
    decreases orders.len(),
{
    if orders.len() == 0 {
        assert(orders.push(order).skip(1) =~= Seq::<Order>::empty());
        assert(orders.push(order)[0] == order);
        assert(sum_sizes(orders.push(order)) == order.size + sum_sizes(Seq::<Order>::empty()));
    } else {
        lemma_sum_sizes_push(orders.skip(1), order);
        assert(orders.push(order).skip(1) =~= orders.skip(1).push(order));
        assert(orders.push(order)[0] == orders[0]);
        assert(sum_sizes(orders.push(order)) == orders[0].size + sum_sizes(
            orders.skip(1).push(order),
        ));
    }
}

pub proof fn lemma_sum_sizes_bounds(orders: Seq<Order>)
    ensures
        0 <= sum_sizes(orders) <= orders.len() * (u64::MAX as int),
    decreases orders.len(),
{
    if orders.len() == 0 {
    } else {
        lemma_sum_sizes_bounds(orders.skip(1));
        assert(sum_sizes(orders) <= orders.len() * (u64::MAX as int)) by (nonlinear_arith)
            requires
                sum_sizes(orders) == orders[0].size + sum_sizes(orders.skip(1)),
                orders[0].size <= u64::MAX as int,
                0 <= sum_sizes(orders.skip(1)) <= (orders.len() - 1) * (u64::MAX as int),
        ;
    }
}

/// One matching pass of an incoming remainder over a bucket's orders,
/// oldest first. Each step transfers the smaller of the two remainders from
/// both sides, and the pass stops as soon as the incoming remainder reaches
/// zero; later orders are left untouched. Returns the bucket's orders after
/// the pass and the incoming remainder after the pass.
pub open spec fn fill_orders(orders: Seq<Order>, incoming: int) -> (Seq<Order>, int)
    decreases orders.len(),
{
    if orders.len() == 0 {
        (orders, incoming)
    } else {
        let o = orders[0];
        let t = if incoming >= o.size { o.size as int } else { incoming };
        let o2 = Order { size: (o.size - t) as u64, bid_or_ask: o.bid_or_ask };
        let rem = incoming - t;
        if rem == 0 {
            (seq![o2] + orders.skip(1), 0)
        } else {
            let r = fill_orders(orders.skip(1), rem);
            (seq![o2] + r.0, r.1)
        }
    }
}

/// A pass with nothing left to fill leaves the bucket unchanged.
pub proof fn lemma_fill_orders_zero(orders: Seq<Order>)
    ensures
        fill_orders(orders, 0).0 == orders,
        fill_orders(orders, 0).1 == 0,
{
    if orders.len() > 0 {
        let o = orders[0];
        let o2 = Order { size: (o.size - (if 0 >= o.size { o.size as int } else { 0int })) as u64, bid_or_ask: o.bid_or_ask };
        assert(o2 == o);
        assert(seq![o] + orders.skip(1) =~= orders);
    }
}

/// Conservation and bounds of a fill pass: the bucket loses exactly the
/// size the incoming remainder loses (no size is created or destroyed
/// beyond the amount transferred), the remainder never grows or goes
/// negative, no resting order grows, and the bucket keeps its length, its
/// order of orders and their sides.
pub proof fn lemma_fill_orders_conserves(orders: Seq<Order>, incoming: int)
    requires
        incoming >= 0,
    ensures
        ({
            let r = fill_orders(orders, incoming);
            &&& sum_sizes(orders) - sum_sizes(r.0) == incoming - r.1
            &&& 0 <= r.1 <= incoming
            &&& r.0.len() == orders.len()
            &&& forall|i: int|
                0 <= i < orders.len() ==> #[trigger] r.0[i].size <= orders[i].size
            &&& forall|i: int|
                0 <= i < orders.len() ==> #[trigger] r.0[i].bid_or_ask == orders[i].bid_or_ask
        }),
    decreases orders.len(),
{
    if orders.len() == 0 {
    } else {
        let o = orders[0];
        let t = if incoming >= o.size {
            o.size as int
        } else {
            incoming
        };
        let o2 = Order { size: (o.size - t) as u64, bid_or_ask: o.bid_or_ask };
        let rem = incoming - t;
        let r = fill_orders(orders, incoming);
        if rem == 0 {
            assert((seq![o2] + orders.skip(1)).skip(1) =~= orders.skip(1));
            assert(sum_sizes(r.0) == o2.size + sum_sizes(orders.skip(1)));
        } else {
            lemma_fill_orders_conserves(orders.skip(1), rem);
            let rr = fill_orders(orders.skip(1), rem);
            assert((seq![o2] + rr.0).skip(1) =~= rr.0);
            assert(sum_sizes(r.0) == o2.size + sum_sizes(rr.0));
            assert(forall|i: int|
                0 <= i < orders.len() ==> #[trigger] r.0[i].size <= orders[i].size) by {
                assert(forall|i: int|
                    1 <= i < orders.len() ==> r.0[i] == rr.0[i - 1] && orders.skip(1)[i - 1]
                        == orders[i]);
            }
            assert(forall|i: int|
                0 <= i < orders.len() ==> #[trigger] r.0[i].bid_or_ask == orders[i].bid_or_ask)
                by {
                assert(forall|i: int|
                    1 <= i < orders.len() ==> r.0[i] == rr.0[i - 1] && orders.skip(1)[i - 1]
                        == orders[i]);
            }
        }
    }
}

/// All resting liquidity at one exact price on one side of one book, in
/// insertion order: the sequence order is the first-come-first-served
/// priority rule within the price level.
#[derive(Debug)]
pub struct Limit {
    pub price: Price,
    pub orders: Vec<Order>,
}

impl Limit {
    /// A fresh, empty bucket at `price`.
    pub fn new(price: Price) -> (r: Limit)
        ensures
            r.price == price,
            r.orders@ == Seq::<Order>::empty(),
    {
        Limit { price, orders: Vec::new() }
    }

    /// Aggregate remaining size of the bucket's orders; zero for an empty
    /// bucket, never a failure.
    pub fn total_volume(&self) -> (r: u128)
        ensures
            r == sum_sizes(self.orders@),
    {
        let n = self.orders.len();
        let mut acc: u128 = 0;
        let mut i: usize = 0;
        while i < n
            invariant
                i <= n,
                n == self.orders@.len(),
                acc == sum_sizes(self.orders@.take(i as int)),
            decreases n - i,
        {
            proof {
                lemma_sum_sizes_bounds(self.orders@.take(i as int));
                assert((i as int) * (u64::MAX as int) + (u64::MAX as int) < u128::MAX as int)
                    by (nonlinear_arith)
                    requires
                        0 <= i as int <= u64::MAX as int,
                ;
                assert(self.orders@.take(i as int).push(self.orders@[i as int]) =~= self.orders@
                    .take(i as int + 1));
                lemma_sum_sizes_push(self.orders@.take(i as int), self.orders@[i as int]);
            }
            acc = acc + self.orders[i].size as u128;
            i = i + 1;
        }
        proof {
            assert(self.orders@.take(n as int) =~= self.orders@);
        }
        acc
    }

    /// Fills `market_order` against this bucket's resting orders, oldest
    /// first, as `fill_orders` says: each resting order gives up the
    /// smaller of the two remainders, and the pass stops as soon as the
    /// market order is filled. The loop takes at most one step per resting
    /// order.
    #[verifier::loop_isolation(false)]
    pub fn fill_order(&mut self, market_order: &mut Order)
        ensures
            final(self).price == old(self).price,
            final(market_order).bid_or_ask == old(market_order).bid_or_ask,
            final(self).orders@ == fill_orders(
                old(self).orders@,
                old(market_order).size as int,
            ).0,
            final(market_order).size as int == fill_orders(
                old(self).orders@,
                old(market_order).size as int,
            ).1,
    {
        let ghost orders0 = old(self).orders@;
        let ghost m0 = old(market_order).size as int;
        let ghost target = fill_orders(orders0, m0);
        proof {
            lemma_fill_orders_conserves(orders0, m0);
            assert(orders0.skip(0) =~= orders0);
            assert(orders0.take(0) =~= target.0.take(0));
        }
        let n = self.orders.len();
        let mut i: usize = 0;
        while i < n && market_order.size > 0
            invariant
                i <= n,
                n == self.orders@.len(),
                target.0.len() == n,
                self.price == old(self).price,
                market_order.bid_or_ask == old(market_order).bid_or_ask,
                self.orders@.take(i as int) == target.0.take(i as int),
                fill_orders(self.orders@.skip(i as int), market_order.size as int).0 == target.0
                    .skip(i as int),
                fill_orders(self.orders@.skip(i as int), market_order.size as int).1 == target.1,
            decreases n - i,
        {
            let ghost pre = self.orders@;
            let ghost mpre = market_order.size as int;
            let ghost rest = pre.skip(i as int);
            let o = self.orders[i];
            let m = market_order.size;
            proof {
                assert(rest[0] == o);
                assert(rest.len() > 0);
            }
            let ghost t = if mpre >= o.size {
                o.size as int
            } else {
                mpre
            };
            let ghost o2 = Order { size: (o.size - t) as u64, bid_or_ask: o.bid_or_ask };
            if m >= o.size {
                market_order.size = m - o.size;
                self.orders.set(i, Order { size: 0, bid_or_ask: o.bid_or_ask });
            } else {
                market_order.size = 0;
                self.orders.set(i, Order { size: o.size - m, bid_or_ask: o.bid_or_ask });
            }
            proof {
                let rem = mpre - t;
                assert(self.orders@ == pre.update(i as int, o2));
                assert(market_order.size as int == rem);
                assert(self.orders@.take(i as int) =~= pre.take(i as int));
                assert(self.orders@.skip(i as int + 1) =~= rest.skip(1));
                if rem == 0 {
                    assert(fill_orders(rest, mpre).0 == seq![o2] + rest.skip(1));
                    assert(fill_orders(rest, mpre).1 == 0);
                    assert(target.0.skip(i as int)[0] == o2);
                    lemma_fill_orders_zero(rest.skip(1));
                    assert(target.0.skip(i as int).skip(1) =~= rest.skip(1));
                    assert(target.0.skip(i as int + 1) =~= target.0.skip(i as int).skip(1));
                } else {
                    let rr = fill_orders(rest.skip(1), rem);
                    assert(fill_orders(rest, mpre).0 == seq![o2] + rr.0);
                    assert(fill_orders(rest, mpre).1 == rr.1);
                    assert(target.0.skip(i as int)[0] == o2);
                    assert(rr.0 =~= target.0.skip(i as int).skip(1));
                    assert(target.0.skip(i as int + 1) =~= target.0.skip(i as int).skip(1));
                }
                assert(self.orders@.take(i as int + 1) =~= target.0.take(i as int + 1)) by {
                    assert(target.0.take(i as int + 1) =~= target.0.take(i as int).push(
                        target.0[i as int],
                    ));
                    assert(target.0[i as int] == target.0.skip(i as int)[0]);
                    assert(self.orders@.take(i as int + 1) =~= self.orders@.take(i as int).push(
                        o2,
                    ));
                }
            }
            i = i + 1;
        }
        proof {
            if i == n && market_order.size > 0 {
                assert(self.orders@.skip(n as int) =~= Seq::<Order>::empty());
                assert(target.0.skip(n as int) =~= Seq::<Order>::empty());
            } else {
                lemma_fill_orders_zero(self.orders@.skip(i as int));
                assert(self.orders@.skip(i as int) =~= target.0.skip(i as int));
            }
            assert(self.orders@ =~= self.orders@.take(i as int) + self.orders@.skip(i as int));
            assert(target.0 =~= target.0.take(i as int) + target.0.skip(i as int));
        }
    }

    /// Appends to the end of the bucket, behind every earlier arrival.
    pub fn add_order(&mut self, order: Order)
        ensures
            final(self).price == old(self).price,
            final(self).orders@ == old(self).orders@.push(order),
    {
        self.orders.push(order);
    }
}

/// The mathematical content of a `Limit`: its price and its orders.
#[verifier::ext_equal]
pub struct LimitView {
    pub price: Price,
    pub orders: Seq<Order>,
}

impl View for Limit {
    type V = LimitView;

    open spec fn view(&self) -> LimitView {
        LimitView { price: self.price, orders: self.orders@ }
    }
}

/// The buckets of one book side, as their mathematical content.
pub open spec fn lviews(side: Seq<Limit>) -> Seq<LimitView> {
    side.map_values(|l: Limit| l@)
}

/// Strict price ordering across a side's buckets: ascending for asks,
/// descending for bids. Strictness also says each price has at most one
/// bucket on the side.
pub open spec fn side_sorted(side: Seq<LimitView>, ascending: bool) -> bool {
    forall|i: int, j: int|
        0 <= i < j < side.len() ==> (if ascending {
            (#[trigger] side[i]).price.atoms < (#[trigger] side[j]).price.atoms
        } else {
            (#[trigger] side[i]).price.atoms > (#[trigger] side[j]).price.atoms
        })
}

/// A side after a resting order arrives at `price`: the walk passes every
/// bucket that sorts before `price`, appends to the bucket at exactly
/// `price` if one exists, and otherwise makes a new bucket of this one
/// order at the position that keeps the side sorted.
pub open spec fn side_with_order(
    side: Seq<LimitView>,
    price: Price,
    order: Order,
    ascending: bool,
) -> Seq<LimitView>
    decreases side.len(),
{
    if side.len() == 0 {
        seq![LimitView { price, orders: seq![order] }]
    } else if side[0].price.atoms == price.atoms {
        seq![LimitView { price: side[0].price, orders: side[0].orders.push(order) }] + side.skip(1)
    } else if (ascending && price.atoms < side[0].price.atoms) || (!ascending && price.atoms
        > side[0].price.atoms) {
        seq![LimitView { price, orders: seq![order] }] + side
    } else {
        seq![side[0]] + side_with_order(side.skip(1), price, order, ascending)
    }
}

/// One matching pass of an incoming remainder over a side's buckets, in the
/// order they stand (price priority when the side is sorted): each bucket is
/// drained by `fill_orders`, and the walk stops as soon as the incoming
/// remainder reaches zero. Returns the side after the pass and the incoming
/// remainder after the pass.
pub open spec fn fill_limits(limits: Seq<LimitView>, incoming: int) -> (Seq<LimitView>, int)
    decreases limits.len(),
{
    if limits.len() == 0 {
        (limits, incoming)
    } else {
        let r0 = fill_orders(limits[0].orders, incoming);
        let l2 = LimitView { price: limits[0].price, orders: r0.0 };
        if r0.1 == 0 {
            (seq![l2] + limits.skip(1), 0)
        } else {
            let r = fill_limits(limits.skip(1), r0.1);
            (seq![l2] + r.0, r.1)
        }
    }
}

/// A pass with nothing left to fill leaves the side unchanged.
pub proof fn lemma_fill_limits_zero(limits: Seq<LimitView>)
    ensures
        fill_limits(limits, 0).0 == limits,
        fill_limits(limits, 0).1 == 0,
{
    if limits.len() > 0 {
        lemma_fill_orders_zero(limits[0].orders);
        let l2 = LimitView { price: limits[0].price, orders: fill_orders(limits[0].orders, 0).0 };
        assert(l2 =~= limits[0]);
        assert(seq![l2] + limits.skip(1) =~= limits);
    }
}

/// Sum of the remaining sizes resting in a side's buckets.
pub open spec fn sum_volumes(limits: Seq<LimitView>) -> int
    decreases limits.len(),
{
    if limits.len() == 0 {
        0
    } else {
        sum_sizes(limits[0].orders) + sum_volumes(limits.skip(1))
    }
}

/// Conservation across a whole side: a market-order pass removes from the
/// side's buckets exactly the size the incoming remainder loses, and the
/// remainder never grows or goes negative.
pub proof fn lemma_fill_limits_conserves(limits: Seq<LimitView>, incoming: int)
    requires
        incoming >= 0,
    ensures
        ({
            let r = fill_limits(limits, incoming);
            &&& sum_volumes(limits) - sum_volumes(r.0) == incoming - r.1
            &&& 0 <= r.1 <= incoming
        }),
    decreases limits.len(),
{
    if limits.len() == 0 {
    } else {
        let r0 = fill_orders(limits[0].orders, incoming);
        let l2 = LimitView { price: limits[0].price, orders: r0.0 };
        let r = fill_limits(limits, incoming);
        lemma_fill_orders_conserves(limits[0].orders, incoming);
        if r0.1 == 0 {
            assert((seq![l2] + limits.skip(1)).skip(1) =~= limits.skip(1));
            assert(sum_volumes(r.0) == sum_sizes(r0.0) + sum_volumes(limits.skip(1)));
        } else {
            lemma_fill_limits_conserves(limits.skip(1), r0.1);
            let rr = fill_limits(limits.skip(1), r0.1);
            assert((seq![l2] + rr.0).skip(1) =~= rr.0);
            assert(sum_volumes(r.0) == sum_sizes(r0.0) + sum_volumes(rr.0));
        }
    }
}

/// A fill pass keeps every bucket in place: the side keeps its length and
/// each bucket its price — only order sizes shrink.
pub proof fn lemma_fill_limits_frame(limits: Seq<LimitView>, incoming: int)
    ensures
        ({
            let r = fill_limits(limits, incoming);
            &&& r.0.len() == limits.len()
            &&& forall|i: int|
                0 <= i < limits.len() ==> (#[trigger] r.0[i]).price == limits[i].price
        }),
    decreases limits.len(),
{
    if limits.len() == 0 {
    } else {
        let r0 = fill_orders(limits[0].orders, incoming);
        let l2 = LimitView { price: limits[0].price, orders: r0.0 };
        let r = fill_limits(limits, incoming);
        if r0.1 == 0 {
            assert(forall|i: int|
                1 <= i < limits.len() ==> (#[trigger] r.0[i]) == limits.skip(1)[i - 1]);
        } else {
            lemma_fill_limits_frame(limits.skip(1), r0.1);
            let rr = fill_limits(limits.skip(1), r0.1);
            assert(forall|i: int| 1 <= i < limits.len() ==> (#[trigger] r.0[i]) == rr.0[i - 1]);
            assert(forall|i: int|
                1 <= i < limits.len() ==> (#[trigger] limits.skip(1)[i - 1]) == limits[i]);
        }
    }
}

/// The mathematical content of an `OrderBook`: its two sides.
#[verifier::ext_equal]
pub struct OrderBookView {
    pub bids: Seq<LimitView>,
    pub asks: Seq<LimitView>,
}

/// The bid and ask buckets of one market. The ask side is kept sorted by
/// ascending price and the bid side by descending price, so each side
/// stands in the order a market order fills it and each exact price has at
/// most one bucket per side.
#[derive(Debug)]
pub struct OrderBook {
    pub asks: Vec<Limit>,
    pub bids: Vec<Limit>,
}

impl View for OrderBook {
    type V = OrderBookView;

    open spec fn view(&self) -> OrderBookView {
        OrderBookView { bids: lviews(self.bids@), asks: lviews(self.asks@) }
    }
}

impl OrderBook {
    /// Both sides sorted in fill order.
    pub open spec fn wf(&self) -> bool {
        side_sorted(self@.asks, true) && side_sorted(self@.bids, false)
    }

    /// An empty book.
    pub fn new() -> (r: OrderBook)
        ensures
            r@.asks.len() == 0,
            r@.bids.len() == 0,
            r.wf(),
    {
        OrderBook { asks: Vec::new(), bids: Vec::new() }
    }

    /// The ask-side buckets, cheapest first: the fill order for a bid
    /// market order.
    pub fn ask_limits(&self) -> (r: &Vec<Limit>)
        requires
            self.wf(),
        ensures
            lviews(r@) == self@.asks,
            side_sorted(lviews(r@), true),
    {
        &self.asks
    }

    /// The bid-side buckets, highest first: the fill order for an ask
    /// market order.
    pub fn bid_limits(&self) -> (r: &Vec<Limit>)
        requires
            self.wf(),
        ensures
            lviews(r@) == self@.bids,
            side_sorted(lviews(r@), false),
    {
        &self.bids
    }

    /// Fills a market order against the opposing side in price priority —
    /// the asks, cheapest first, for a bid; the bids, highest first, for an
    /// ask — drained bucket by bucket as `fill_limits` says, stopping as
    /// soon as the order is filled or the side's liquidity is exhausted. A
    /// remainder is not an error: it stays on the market order for the
    /// caller to inspect.
    pub fn fill_market_order(&mut self, market_order: &mut Order)
        requires
            old(self).wf(),
        ensures
            final(self).wf(),
            final(market_order).bid_or_ask == old(market_order).bid_or_ask,
            old(market_order).bid_or_ask == BidorAsk::Bid ==> final(self)@.bids == old(
                self,
            )@.bids && final(self)@.asks == fill_limits(
                old(self)@.asks,
                old(market_order).size as int,
            ).0 && final(market_order).size as int == fill_limits(
                old(self)@.asks,
                old(market_order).size as int,
            ).1,
            old(market_order).bid_or_ask == BidorAsk::Ask ==> final(self)@.asks == old(
                self,
            )@.asks && final(self)@.bids == fill_limits(
                old(self)@.bids,
                old(market_order).size as int,
            ).0 && final(market_order).size as int == fill_limits(
                old(self)@.bids,
                old(market_order).size as int,
            ).1,
    {
        match market_order.bid_or_ask {
            BidorAsk::Bid => {
                fill_side(&mut self.asks, market_order);
                proof {
                    lemma_fill_limits_frame(old(self)@.asks, old(market_order).size as int);
                }
            },
            BidorAsk::Ask => {
                fill_side(&mut self.bids, market_order);
                proof {
                    lemma_fill_limits_frame(old(self)@.bids, old(market_order).size as int);
                }
            },
        }
    }

    /// Routes a resting order to its own side — bids for a bid, asks for an
    /// ask — and buckets it there by exact price, as `side_with_order`
    /// says: the bucket at exactly `price` gains the order at its back, or
    /// a new bucket of this one order is made at the position that keeps
    /// the side in fill order. The other side is untouched.
    pub fn add_limit_order(&mut self, price: Price, order: Order)
        requires
            old(self).wf(),
        ensures
            final(self).wf(),
            order.bid_or_ask == BidorAsk::Bid ==> final(self)@.bids == side_with_order(
                old(self)@.bids,
                price,
                order,
                false,
            ) && final(self)@.asks == old(self)@.asks,
            order.bid_or_ask == BidorAsk::Ask ==> final(self)@.asks == side_with_order(
                old(self)@.asks,
                price,
                order,
                true,
            ) && final(self)@.bids == old(self)@.bids,
    {
        match order.bid_or_ask {
            BidorAsk::Bid => add_order_to_side(&mut self.bids, price, order, false),
            BidorAsk::Ask => add_order_to_side(&mut self.asks, price, order, true),
        }
    }
}

/// One matching pass of `market_order` over a side's buckets, front to
/// back, exactly as `fill_limits` says.
#[verifier::loop_isolation(false)]
fn fill_side(side: &mut Vec<Limit>, market_order: &mut Order)
    ensures
        final(market_order).bid_or_ask == old(market_order).bid_or_ask,
        lviews(final(side)@) == fill_limits(lviews(old(side)@), old(market_order).size as int).0,
        final(market_order).size as int == fill_limits(
            lviews(old(side)@),
            old(market_order).size as int,
        ).1,
{
    let ghost s0 = lviews(old(side)@);
    let ghost m0 = old(market_order).size as int;
    let ghost target = fill_limits(s0, m0);
    proof {
        lemma_fill_limits_frame(s0, m0);
        assert(s0.skip(0) =~= s0);
        assert(s0.take(0) =~= target.0.take(0));
    }
    let n = side.len();
    let mut i: usize = 0;
    while i < n && market_order.size > 0
        invariant
            i <= n,
            n == side@.len(),
            target.0.len() == n,
            market_order.bid_or_ask == old(market_order).bid_or_ask,
            lviews(side@).take(i as int) == target.0.take(i as int),
            fill_limits(lviews(side@).skip(i as int), market_order.size as int).0 == target.0
                .skip(i as int),
            fill_limits(lviews(side@).skip(i as int), market_order.size as int).1 == target.1,
        decreases n - i,
    {
        let ghost pre = lviews(side@);
        let ghost mpre = market_order.size as int;
        let ghost rest = pre.skip(i as int);
        let mut limit = side.remove(i);
        proof {
            assert(limit@ == rest[0]);
            assert(rest.len() > 0);
        }
        limit.fill_order(market_order);
        side.insert(i, limit);
        proof {
            let r0 = fill_orders(rest[0].orders, mpre);
            let l2 = LimitView { price: rest[0].price, orders: r0.0 };
            let rem = r0.1;
            assert(limit@ =~= l2);
            assert(market_order.size as int == rem);
            assert(lviews(side@) =~= pre.update(i as int, l2)) by {
                assert(side@.len() == pre.len());
                assert(side@[i as int] == limit);
                assert(forall|k: int|
                    0 <= k < side@.len() && k != i ==> (#[trigger] side@[k])@ == pre[k]);
            }
            assert(lviews(side@).take(i as int) =~= pre.take(i as int));
            assert(lviews(side@).skip(i as int + 1) =~= rest.skip(1));
            if rem == 0 {
                assert(fill_limits(rest, mpre).0 == seq![l2] + rest.skip(1));
                assert(fill_limits(rest, mpre).1 == 0);
                assert(target.0.skip(i as int)[0] == l2);
                lemma_fill_limits_zero(rest.skip(1));
                assert(target.0.skip(i as int).skip(1) =~= rest.skip(1));
                assert(target.0.skip(i as int + 1) =~= target.0.skip(i as int).skip(1));
            } else {
                let rr = fill_limits(rest.skip(1), rem);
                assert(fill_limits(rest, mpre).0 == seq![l2] + rr.0);
                assert(fill_limits(rest, mpre).1 == rr.1);
                assert(target.0.skip(i as int)[0] == l2);
                assert(rr.0 =~= target.0.skip(i as int).skip(1));
                assert(target.0.skip(i as int + 1) =~= target.0.skip(i as int).skip(1));
            }
            assert(lviews(side@).take(i as int + 1) =~= target.0.take(i as int + 1)) by {
                assert(target.0.take(i as int + 1) =~= target.0.take(i as int).push(
                    target.0[i as int],
                ));
                assert(target.0[i as int] == target.0.skip(i as int)[0]);
                assert(lviews(side@).take(i as int + 1) =~= lviews(side@).take(i as int).push(
                    l2,
                ));
            }
        }
        i = i + 1;
    }
    proof {
        if i == n && market_order.size > 0 {
            assert(lviews(side@).skip(n as int) =~= Seq::<LimitView>::empty());
            assert(target.0.skip(n as int) =~= Seq::<LimitView>::empty());
        } else {
            lemma_fill_limits_zero(lviews(side@).skip(i as int));
            assert(lviews(side@).skip(i as int) =~= target.0.skip(i as int));
        }
        assert(lviews(side@) =~= lviews(side@).take(i as int) + lviews(side@).skip(i as int));
        assert(target.0 =~= target.0.take(i as int) + target.0.skip(i as int));
    }
}

/// Whether a bucket at price-atom count `a` sorts strictly before one at
/// `b` on a side: ascending order for asks, descending for bids.
fn sorts_before(a: u64, b: u64, ascending: bool) -> (r: bool)
    ensures
        r == (if ascending {
            a < b
        } else {
            a > b
        }),
{
    if ascending {
        a < b
    } else {
        a > b
    }
}

/// Walks a sorted side to the position of `price` and buckets the order
/// there, exactly as `side_with_order` says.
#[verifier::loop_isolation(false)]
#[verifier::rlimit(60)]
fn add_order_to_side(side: &mut Vec<Limit>, price: Price, order: Order, ascending: bool)
    requires
        side_sorted(lviews(old(side)@), ascending),
    ensures
        lviews(final(side)@) == side_with_order(lviews(old(side)@), price, order, ascending),
        side_sorted(lviews(final(side)@), ascending),
{
    let ghost s0 = lviews(old(side)@);
    let ghost target = side_with_order(s0, price, order, ascending);
    proof {
        assert(s0.skip(0) =~= s0);
        assert(s0.take(0) + side_with_order(s0.skip(0), price, order, ascending) =~= target);
    }
    let n = side.len();
    let mut i: usize = 0;
    while i < n && sorts_before(side[i].price.atoms, price.atoms, ascending)
        invariant
            i <= n,
            n == side@.len(),
            side@ == old(side)@,
            forall|k: int|
                0 <= k < i ==> (if ascending {
                    (#[trigger] s0[k]).price.atoms < price.atoms
                } else {
                    (#[trigger] s0[k]).price.atoms > price.atoms
                }),
            target == s0.take(i as int) + side_with_order(
                s0.skip(i as int),
                price,
                order,
                ascending,
            ),
        decreases n - i,
    {
        proof {
            let rest = s0.skip(i as int);
            assert(rest[0] == s0[i as int]);
            assert(side_with_order(rest, price, order, ascending) == seq![rest[0]]
                + side_with_order(rest.skip(1), price, order, ascending));
            assert(rest.skip(1) =~= s0.skip(i as int + 1));
            assert(s0.take(i as int + 1) =~= s0.take(i as int).push(s0[i as int]));
            assert(s0.take(i as int) + (seq![s0[i as int]] + side_with_order(
                s0.skip(i as int + 1),
                price,
                order,
                ascending,
            )) =~= s0.take(i as int + 1) + side_with_order(
                s0.skip(i as int + 1),
                price,
                order,
                ascending,
            ));
        }
        i = i + 1;
    }
    let ghost rest = s0.skip(i as int);
    if i < n && side[i].price.atoms == price.atoms {
        let mut limit = side.remove(i);
        limit.add_order(order);
        side.insert(i, limit);
        proof {
            assert(rest[0] == s0[i as int]);
            let l2 = LimitView { price: s0[i as int].price, orders: s0[i as int].orders.push(order) };
            assert(side_with_order(rest, price, order, ascending) == seq![l2] + rest.skip(1));
            assert(lviews(side@) =~= s0.update(i as int, l2)) by {
                assert(side@ == old(side)@.remove(i as int).insert(i as int, side@[i as int]));
                assert(side@[i as int]@ =~= l2);
            }
            assert(lviews(side@) =~= s0.take(i as int) + (seq![l2] + rest.skip(1)));
            assert(forall|k: int|
                0 <= k < s0.len() ==> (#[trigger] lviews(side@)[k]).price == s0[k].price);
        }
    } else {
        let mut limit = Limit::new(price);
        limit.add_order(order);
        side.insert(i, limit);
        proof {
            let nv = LimitView { price, orders: seq![order] };
            if rest.len() == 0 {
                assert(side_with_order(rest, price, order, ascending) == seq![nv]);
            } else {
                assert(rest[0] == s0[i as int]);
                assert(rest[0].price.atoms != price.atoms);
                assert((ascending && price.atoms < rest[0].price.atoms) || (!ascending
                    && price.atoms > rest[0].price.atoms));
                assert(side_with_order(rest, price, order, ascending) == seq![nv] + rest);
            }
            assert(side@[i as int]@ =~= nv);
            assert(lviews(side@) =~= s0.insert(i as int, nv)) by {
                assert(side@ == old(side)@.insert(i as int, side@[i as int]));
            }
            assert(lviews(side@) =~= s0.take(i as int) + (side_with_order(
                rest,
                price,
                order,
                ascending,
            )));
            assert forall|a: int, b: int| 0 <= a < b < lviews(side@).len() implies (if ascending {
                (#[trigger] lviews(side@)[a]).price.atoms < (#[trigger] lviews(side@)[b]).price.atoms
            } else {
                (#[trigger] lviews(side@)[a]).price.atoms > (#[trigger] lviews(side@)[b]).price.atoms
            }) by {
                let sv = lviews(side@);
                assert(sv == s0.insert(i as int, nv));
                if a < i && b < i {
                    assert(sv[a] == s0[a] && sv[b] == s0[b]);
                } else if a < i && b == i {
                    assert(sv[a] == s0[a] && sv[b] == nv);
                } else if a < i && b > i {
                    assert(sv[a] == s0[a] && sv[b] == s0[b - 1]);
                } else if a == i {
                    assert(sv[a] == nv && sv[b] == s0[b - 1]);
                    assert(b - 1 >= i);
                } else {
                    assert(sv[a] == s0[a - 1] && sv[b] == s0[b - 1]);
                }
            }
        }
    }
}

} // verus!
