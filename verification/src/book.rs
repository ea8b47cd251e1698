//! Per-market order book: price-time-priority matching and cancellation.
//!
//! A book holds two price-time-sorted queues of resting limit orders:
//! bids (buy orders, best price first, descending) and asks (sell orders,
//! best price first, ascending).  Within a price level, earlier arrivals
//! stand earlier in the queue.  `execute_order` matches an arriving taker
//! against the head of the opposite queue, and `cancel_order` removes an
//! order by id.

use vstd::prelude::*;

use crate::utils::{Order, OrderId, OrderPrice, OrderSide, Trade};
use crate::utils::spec_trade;

verus! {

/// An order may rest in a book only while some of it is unfilled.
pub open spec fn resident(o: Order) -> bool {
    0 < o.remaining <= o.size
}

pub open spec fn all_resident(s: Seq<Order>) -> bool {
    forall|i: int| 0 <= i < s.len() ==> resident(#[trigger] s[i])
}

pub open spec fn all_side(s: Seq<Order>, side: OrderSide) -> bool {
    forall|i: int| 0 <= i < s.len() ==> (#[trigger] s[i]).side == side
}

/// The side a taker's counterparties rest on.
pub open spec fn other_side(side: OrderSide) -> OrderSide {
    match side {
        OrderSide::Buy => OrderSide::Sell,
        OrderSide::Sell => OrderSide::Buy,
    }
}

/// `a` is a strictly worse price than `b` for an order on `side`:
/// a lower bid, or a higher ask.
pub open spec fn worse_price(side: OrderSide, a: OrderPrice, b: OrderPrice) -> bool {
    match side {
        OrderSide::Buy => a < b,
        OrderSide::Sell => a > b,
    }
}

/// Best price first, and stable: within one price level, the earlier
/// insertion stands earlier.
pub open spec fn price_sorted(side: OrderSide, s: Seq<Order>) -> bool {
    forall|i: int, j: int| 0 <= i < j < s.len() ==>
        !worse_price(side, (#[trigger] s[i]).price, (#[trigger] s[j]).price)
}

/// The resting book never crosses itself: the best bid is strictly below
/// the best ask (or one side is empty).
pub open spec fn no_cross(bids: Seq<Order>, asks: Seq<Order>) -> bool {
    bids.len() > 0 && asks.len() > 0 ==> bids[0].price < asks[0].price
}

/// A taker crosses a maker when the maker offers the taker's price or better.
pub open spec fn crosses(taker: Order, maker: Order) -> bool {
    match taker.side {
        OrderSide::Buy => taker.price >= maker.price,
        OrderSide::Sell => taker.price <= maker.price,
    }
}

/// Everything matching leaves behind: the trades in emission order, the
/// opposite queue as it rests afterwards, and the taker with its
/// remaining quantity after all fills.
pub struct MatchResult {
    pub trades: Seq<Trade>,
    pub opposite: Seq<Order>,
    pub taker: Order,
}

/// The matching loop as a function: repeatedly trade the taker against the
/// head of the opposite queue while it crosses, consuming makers from the
/// front.  The trade price is always the maker's price; the trade size is
/// the smaller of the two remainders before the fill.
pub open spec fn spec_match(opposite: Seq<Order>, taker: Order) -> MatchResult
    decreases opposite.len(),
{
    if taker.remaining == 0 || opposite.len() == 0 || !crosses(taker, opposite[0]) {
        MatchResult { trades: Seq::empty(), opposite, taker }
    } else {
        let maker = opposite[0];
        let t = spec_trade(maker, taker);
        let taker2 = Order { remaining: (taker.remaining - t.size) as u64, ..taker };
        if t.size == maker.remaining {
            let rest = spec_match(opposite.drop_first(), taker2);
            MatchResult {
                trades: seq![t] + rest.trades,
                opposite: rest.opposite,
                taker: rest.taker,
            }
        } else {
            let maker2 = Order { remaining: (maker.remaining - t.size) as u64, ..maker };
            MatchResult { trades: seq![t], opposite: opposite.update(0, maker2), taker: taker2 }
        }
    }
}

/// Where an unfilled taker comes to rest in its own queue: after every
/// order of equal or better price, before the first strictly worse one.
pub open spec fn spec_insert_index(side: OrderSide, s: Seq<Order>, p: OrderPrice) -> int
    decreases s.len(),
{
    if s.len() == 0 {
        0
    } else if worse_price(side, s[0].price, p) {
        0
    } else {
        1 + spec_insert_index(side, s.drop_first(), p)
    }
}

pub open spec fn spec_insert_order(side: OrderSide, s: Seq<Order>, o: Order) -> Seq<Order> {
    s.insert(spec_insert_index(side, s, o.price), o)
}

/// The bids of `b` when `side` is buy, else the asks.
pub open spec fn same_side(b: Book, side: OrderSide) -> Seq<Order> {
    match side {
        OrderSide::Buy => b.bids@,
        OrderSide::Sell => b.asks@,
    }
}

/// The asks of `b` when `side` is buy, else the bids.
pub open spec fn opposite_side(b: Book, side: OrderSide) -> Seq<Order> {
    match side {
        OrderSide::Buy => b.asks@,
        OrderSide::Sell => b.bids@,
    }
}

/// Two orders that agree on everything but their unfilled quantity.
pub open spec fn same_except_remaining(a: Order, b: Order) -> bool {
    &&& a.id == b.id
    &&& a.user_id == b.user_id
    &&& a.market_id == b.market_id
    &&& a.side == b.side
    &&& a.price == b.price
    &&& a.size == b.size
}

/// Shape of a matching result: matching consumes makers from the front, so
/// what rests afterwards is a suffix of the old queue, with at most its
/// first element partly filled; the taker keeps every field but its
/// remaining quantity, which only shrinks; and what rests is still resident.
pub proof fn lemma_match_shape(opposite: Seq<Order>, taker: Order)
    requires
        all_resident(opposite),
    ensures
        ({
            let m = spec_match(opposite, taker);
            let k = opposite.len() - m.opposite.len();
            &&& m.opposite.len() <= opposite.len()
            &&& forall|i: int| 0 <= i < m.opposite.len() ==> same_except_remaining(
                #[trigger] m.opposite[i],
                opposite[k + i],
            ) && m.opposite[i].remaining <= opposite[k + i].remaining
            &&& all_resident(m.opposite)
            &&& same_except_remaining(m.taker, taker)
            &&& m.taker.remaining <= taker.remaining
        }),
    decreases opposite.len(),
{
    let m = spec_match(opposite, taker);
    let k = opposite.len() - m.opposite.len();
    if taker.remaining == 0 || opposite.len() == 0 || !crosses(taker, opposite[0]) {
        assert forall|i: int| 0 <= i < m.opposite.len() implies same_except_remaining(
            #[trigger] m.opposite[i],
            opposite[k + i],
        ) && m.opposite[i].remaining <= opposite[k + i].remaining by {}
    } else {
        let maker = opposite[0];
        let t = spec_trade(maker, taker);
        let taker2 = Order { remaining: (taker.remaining - t.size) as u64, ..taker };
        if t.size == maker.remaining {
            assert(all_resident(opposite.drop_first())) by {
                assert forall|i: int| 0 <= i < opposite.drop_first().len() implies resident(
                    #[trigger] opposite.drop_first()[i],
                ) by {
                    assert(opposite.drop_first()[i] == opposite[i + 1]);
                }
            }
            lemma_match_shape(opposite.drop_first(), taker2);
            assert forall|i: int| 0 <= i < m.opposite.len() implies same_except_remaining(
                #[trigger] m.opposite[i],
                opposite[k + i],
            ) && m.opposite[i].remaining <= opposite[k + i].remaining by {
                assert(opposite.drop_first()[k - 1 + i] == opposite[k + i]);
            }
        } else {
            let maker2 = Order { remaining: (maker.remaining - t.size) as u64, ..maker };
            assert(m.opposite == opposite.update(0, maker2));
            assert forall|i: int| 0 <= i < m.opposite.len() implies same_except_remaining(
                #[trigger] m.opposite[i],
                opposite[k + i],
            ) && m.opposite[i].remaining <= opposite[k + i].remaining by {}
            assert(all_resident(m.opposite)) by {
                assert forall|i: int| 0 <= i < m.opposite.len() implies resident(
                    #[trigger] m.opposite[i],
                ) by {}
            }
        }
    }
}

/// Price-time priority and trade-price origin, together: the maker of the
/// `j`-th emitted trade is exactly the `j`-th order of the opposite queue
/// (so orders standing earlier — better priced, or equal priced but earlier
/// inserted — are consumed first), and each trade carries that maker's
/// price and a positive size no larger than that maker's unfilled quantity
/// at the moment of the fill.
pub proof fn lemma_match_priority(opposite: Seq<Order>, taker: Order)
    requires
        all_resident(opposite),
    ensures
        ({
            let m = spec_match(opposite, taker);
            &&& m.trades.len() <= opposite.len()
            &&& forall|j: int| 0 <= j < m.trades.len() ==> {
                &&& (#[trigger] m.trades[j]).maker_order_id == opposite[j].id
                &&& m.trades[j].price == opposite[j].price
                &&& m.trades[j].maker_user_id == opposite[j].user_id
                &&& m.trades[j].market_id == opposite[j].market_id
                &&& m.trades[j].side == opposite[j].side
                &&& m.trades[j].taker_order_id == taker.id
                &&& m.trades[j].taker_user_id == taker.user_id
                &&& 0 < m.trades[j].size <= opposite[j].remaining
            }
        }),
    decreases opposite.len(),
{
    let m = spec_match(opposite, taker);
    if taker.remaining == 0 || opposite.len() == 0 || !crosses(taker, opposite[0]) {
    } else {
        let maker = opposite[0];
        let t = spec_trade(maker, taker);
        let taker2 = Order { remaining: (taker.remaining - t.size) as u64, ..taker };
        if t.size == maker.remaining {
            assert(all_resident(opposite.drop_first())) by {
                assert forall|i: int| 0 <= i < opposite.drop_first().len() implies resident(
                    #[trigger] opposite.drop_first()[i],
                ) by {
                    assert(opposite.drop_first()[i] == opposite[i + 1]);
                }
            }
            lemma_match_priority(opposite.drop_first(), taker2);
            let rest = spec_match(opposite.drop_first(), taker2);
            assert forall|j: int| 0 <= j < m.trades.len() implies {
                &&& (#[trigger] m.trades[j]).maker_order_id == opposite[j].id
                &&& m.trades[j].price == opposite[j].price
                &&& m.trades[j].maker_user_id == opposite[j].user_id
                &&& m.trades[j].market_id == opposite[j].market_id
                &&& m.trades[j].side == opposite[j].side
                &&& m.trades[j].taker_order_id == taker.id
                &&& m.trades[j].taker_user_id == taker.user_id
                &&& 0 < m.trades[j].size <= opposite[j].remaining
            } by {
                if j >= 1 {
                    assert(m.trades[j] == rest.trades[j - 1]);
                    assert(opposite.drop_first()[j - 1] == opposite[j]);
                }
            }
        } else {
        }
    }
}

/// Where the insertion point lies: after every order of equal or better
/// price, and before the first strictly worse one.
proof fn lemma_insert_index_char(side: OrderSide, s: Seq<Order>, p: OrderPrice)
    ensures
        0 <= spec_insert_index(side, s, p) <= s.len(),
        forall|j: int| 0 <= j < spec_insert_index(side, s, p) ==> !worse_price(
            side,
            (#[trigger] s[j]).price,
            p,
        ),
        spec_insert_index(side, s, p) < s.len() ==> worse_price(
            side,
            s[spec_insert_index(side, s, p)].price,
            p,
        ),
    decreases s.len(),
{
    if s.len() == 0 {
    } else if worse_price(side, s[0].price, p) {
    } else {
        lemma_insert_index_char(side, s.drop_first(), p);
        let idx = spec_insert_index(side, s, p);
        assert forall|j: int| 0 <= j < idx implies !worse_price(
            side,
            (#[trigger] s[j]).price,
            p,
        ) by {
            if j >= 1 {
                assert(s.drop_first()[j - 1] == s[j]);
            }
        }
        if idx < s.len() {
            assert(s.drop_first()[idx - 1] == s[idx]);
        }
    }
}


/// Matching leaves the opposite queue sorted and single-sided, with a head
/// priced no better (for the taker) than the old head.
proof fn lemma_match_side(opposite: Seq<Order>, taker: Order, side: OrderSide)
    requires
        all_resident(opposite),
        price_sorted(side, opposite),
        all_side(opposite, side),
    ensures
        ({
            let m = spec_match(opposite, taker);
            &&& price_sorted(side, m.opposite)
            &&& all_side(m.opposite, side)
            &&& m.opposite.len() > 0 ==> opposite.len() > 0 && !worse_price(
                side,
                opposite[0].price,
                m.opposite[0].price,
            )
        }),
{
    let m = spec_match(opposite, taker);
    let k = opposite.len() - m.opposite.len();
    lemma_match_shape(opposite, taker);
    assert forall|i: int, j: int| 0 <= i < j < m.opposite.len() implies !worse_price(
        side,
        (#[trigger] m.opposite[i]).price,
        (#[trigger] m.opposite[j]).price,
    ) by {
        assert(same_except_remaining(m.opposite[i], opposite[k + i]));
        assert(same_except_remaining(m.opposite[j], opposite[k + j]));
        assert(!worse_price(side, opposite[k + i].price, opposite[k + j].price));
    }
    assert forall|i: int| 0 <= i < m.opposite.len() implies (#[trigger] m.opposite[i]).side
        == side by {
        assert(same_except_remaining(m.opposite[i], opposite[k + i]));
    }
    if m.opposite.len() > 0 {
        assert(same_except_remaining(m.opposite[0], opposite[k]));
        if k > 0 {
            assert(!worse_price(side, opposite[0].price, opposite[k].price));
        }
    }
}

/// Inserting a resting order at its price-time position preserves sort
/// order, residency and side, and never bypasses a better-priced head.
proof fn lemma_insert_wf(side: OrderSide, s: Seq<Order>, o: Order)
    requires
        price_sorted(side, s),
        all_resident(s),
        all_side(s, side),
        resident(o),
        o.side == side,
    ensures
        price_sorted(side, spec_insert_order(side, s, o)),
        all_resident(spec_insert_order(side, s, o)),
        all_side(spec_insert_order(side, s, o), side),
        spec_insert_order(side, s, o).len() == s.len() + 1,
        spec_insert_order(side, s, o)[0] == (if spec_insert_index(side, s, o.price) == 0 {
            o
        } else {
            s[0]
        }),
{
    lemma_insert_index_char(side, s, o.price);
    let idx = spec_insert_index(side, s, o.price);
    let inserted = s.insert(idx, o);
    assert forall|i: int, j: int| 0 <= i < j < inserted.len() implies !worse_price(
        side,
        (#[trigger] inserted[i]).price,
        (#[trigger] inserted[j]).price,
    ) by {
        if i < idx {
            assert(inserted[i] == s[i]);
        } else if i == idx {
            assert(inserted[i] == o);
        } else {
            assert(inserted[i] == s[i - 1]);
        }
        if j < idx {
            assert(inserted[j] == s[j]);
        } else if j == idx {
            assert(inserted[j] == o);
        } else {
            assert(inserted[j] == s[j - 1]);
        }
    }
    assert forall|i: int| 0 <= i < inserted.len() implies resident(#[trigger] inserted[i])
        && (#[trigger] inserted[i]).side == side by {
        if i < idx {
            assert(inserted[i] == s[i]);
        } else if i == idx {
            assert(inserted[i] == o);
        } else {
            assert(inserted[i] == s[i - 1]);
        }
    }
}


/// A taker left with remaining quantity no longer crosses what rests opposite.
proof fn lemma_match_rest_uncrossed(opposite: Seq<Order>, taker: Order)
    ensures
        ({
            let m = spec_match(opposite, taker);
            m.taker.remaining > 0 ==> m.opposite.len() == 0 || !crosses(m.taker, m.opposite[0])
        }),
    decreases opposite.len(),
{
    let m = spec_match(opposite, taker);
    if taker.remaining == 0 || opposite.len() == 0 || !crosses(taker, opposite[0]) {
    } else {
        let maker = opposite[0];
        let t = spec_trade(maker, taker);
        let taker2 = Order { remaining: (taker.remaining - t.size) as u64, ..taker };
        if t.size == maker.remaining {
            lemma_match_rest_uncrossed(opposite.drop_first(), taker2);
        }
    }
}

/// Matching a taker and letting its remainder rest keeps both queues
/// well formed and uncrossed.  `same0` and `opp0` are the taker's own and
/// opposite queues before; the ensures describe them after.
proof fn lemma_after_match_wf(side: OrderSide, same0: Seq<Order>, opp0: Seq<Order>, taker: Order)
    requires
        taker.side == side,
        taker.remaining <= taker.size,
        all_resident(same0),
        all_resident(opp0),
        all_side(same0, side),
        all_side(opp0, other_side(side)),
        price_sorted(side, same0),
        price_sorted(other_side(side), opp0),
        same0.len() > 0 && opp0.len() > 0 ==> worse_price(side, same0[0].price, opp0[0].price),
    ensures
        ({
            let m = spec_match(opp0, taker);
            let same1 = if m.taker.remaining > 0 {
                spec_insert_order(side, same0, m.taker)
            } else {
                same0
            };
            &&& all_resident(m.opposite)
            &&& all_resident(same1)
            &&& all_side(m.opposite, other_side(side))
            &&& all_side(same1, side)
            &&& price_sorted(other_side(side), m.opposite)
            &&& price_sorted(side, same1)
            &&& (same1.len() > 0 && m.opposite.len() > 0 ==> worse_price(
                side,
                same1[0].price,
                m.opposite[0].price,
            ))
        }),
{
    let m = spec_match(opp0, taker);
    assert(all_resident(m.opposite) && same_except_remaining(m.taker, taker)
        && m.taker.remaining <= taker.remaining) by {
        lemma_match_shape(opp0, taker);
    }
    assert(price_sorted(other_side(side), m.opposite) && all_side(m.opposite, other_side(side))
        && (m.opposite.len() > 0 ==> opp0.len() > 0 && !worse_price(
        other_side(side),
        opp0[0].price,
        m.opposite[0].price,
    ))) by {
        lemma_match_side(opp0, taker, other_side(side));
    }
    assert(m.taker.remaining > 0 ==> m.opposite.len() == 0 || !crosses(m.taker, m.opposite[0]))
        by {
        lemma_match_rest_uncrossed(opp0, taker);
    }
    if m.taker.remaining > 0 {
        let idx = spec_insert_index(side, same0, m.taker.price);
        let same1 = spec_insert_order(side, same0, m.taker);
        assert(all_resident(same1) && price_sorted(side, same1) && all_side(same1, side)
            && same1.len() == same0.len() + 1 && same1[0] == (if idx == 0 {
            m.taker
        } else {
            same0[0]
        })) by {
            lemma_insert_wf(side, same0, m.taker);
        }
        if m.opposite.len() > 0 {
            assert(idx == 0 ==> worse_price(side, same1[0].price, m.opposite[0].price));
            assert(idx != 0 ==> worse_price(side, same1[0].price, m.opposite[0].price)) by {
                if idx != 0 {
                    assert(0 < idx <= same0.len()) by {
                        lemma_insert_index_char(side, same0, m.taker.price);
                    }
                }
            }
        }
    } else {
        if same0.len() > 0 && m.opposite.len() > 0 {
            assert(worse_price(side, same0[0].price, m.opposite[0].price));
        }
    }
}

/// A market's resting orders: bids and asks, each price-time sorted.
pub struct Book {
    pub bids: Vec<Order>,
    pub asks: Vec<Order>,
}

impl Book {
    /// Every state a book reaches from empty through `execute_order` and
    /// `cancel_order` satisfies this: only partly filled orders rest in it,
    /// each side holds its own kind, both queues are price-time sorted, and
    /// the book does not cross itself.
    pub open spec fn well_formed(self) -> bool {
        &&& all_resident(self.bids@)
        &&& all_resident(self.asks@)
        &&& all_side(self.bids@, OrderSide::Buy)
        &&& all_side(self.asks@, OrderSide::Sell)
        &&& price_sorted(OrderSide::Buy, self.bids@)
        &&& price_sorted(OrderSide::Sell, self.asks@)
        &&& no_cross(self.bids@, self.asks@)
    }

    pub fn new() -> (r: Book)
        ensures
            r.well_formed(),
            r.bids@ == Seq::<Order>::empty(),
            r.asks@ == Seq::<Order>::empty(),
    {
        Book { bids: Vec::new(), asks: Vec::new() }
    }
}

/// Inserts a resting order into its own queue at its price-time position.
fn insert_sorted(list: &mut Vec<Order>, o: Order)
    ensures
        final(list)@ == spec_insert_order(o.side, old(list)@, o),
{
    proof {
        lemma_insert_index_char(o.side, list@, o.price);
    }
    let mut i: usize = 0;
    loop
        invariant
            i <= list@.len(),
            forall|j: int| 0 <= j < i ==> !worse_price(o.side, (#[trigger] list@[j]).price, o.price),
        ensures
            i <= list@.len(),
            forall|j: int| 0 <= j < i ==> !worse_price(o.side, (#[trigger] list@[j]).price, o.price),
            i < list@.len() ==> worse_price(o.side, list@[i as int].price, o.price),
        decreases list@.len() - i,
    {
        if i == list.len() {
            break ;
        }
        let entry_price = list[i].price;
        let is_worse = match o.side {
            OrderSide::Buy => entry_price < o.price,
            OrderSide::Sell => entry_price > o.price,
        };
        if is_worse {
            break ;
        }
        i = i + 1;
    }
    proof {
        assert(i as int == spec_insert_index(o.side, list@, o.price));
    }
    list.insert(i, o);
}


/// The matching loop of `execute_order`, acting on the opposite queue alone.
fn match_against(opposite: &mut Vec<Order>, taker: Order) -> (r: (Vec<Trade>, Order))
    requires
        all_resident(old(opposite)@),
    ensures
        ({
            let m = spec_match(old(opposite)@, taker);
            &&& r.0@ == m.trades
            &&& final(opposite)@ == m.opposite
            &&& r.1 == m.taker
        }),
        all_resident(final(opposite)@),
        r.1.remaining > 0 ==> final(opposite)@.len() == 0 || !crosses(r.1, final(opposite)@[0]),
{
    let ghost opp0 = opposite@;
    let mut order = taker;
    let mut trades: Vec<Trade> = Vec::new();
    loop
        invariant
            all_resident(opposite@),
            ({
                let m0 = spec_match(opp0, taker);
                let mc = spec_match(opposite@, order);
                &&& m0.trades == trades@ + mc.trades
                &&& m0.opposite == mc.opposite
                &&& m0.taker == mc.taker
            }),
        ensures
            all_resident(opposite@),
            order.remaining == 0 || opposite@.len() == 0 || !crosses(order, opposite@[0]),
            ({
                let m0 = spec_match(opp0, taker);
                let mc = spec_match(opposite@, order);
                &&& m0.trades == trades@ + mc.trades
                &&& m0.opposite == mc.opposite
                &&& m0.taker == mc.taker
            }),
        decreases opposite@.len() + order.remaining,
    {
        if order.remaining == 0 {
            break ;
        }
        if opposite.len() == 0 {
            break ;
        }
        let maker = opposite[0];
        let cross = match order.side {
            OrderSide::Buy => order.price >= maker.price,
            OrderSide::Sell => order.price <= maker.price,
        };
        if !cross {
            break ;
        }
        let ghost opp_pre = opposite@;
        let ghost order_pre = order;
        let ghost trades_pre = trades@;
        let trade = Trade::new(&maker, &order);
        order.remaining = order.remaining - trade.size;
        if maker.remaining == trade.size {
            opposite.remove(0);
        } else {
            opposite[0] = Order { remaining: maker.remaining - trade.size, ..maker };
        }
        trades.push(trade);
        proof {
            let m0 = spec_match(opp0, taker);
            let m_pre = spec_match(opp_pre, order_pre);
            let t = spec_trade(opp_pre[0], order_pre);
            assert(crosses(order_pre, opp_pre[0]));
            assert(t == trade);
            let taker2 = Order { remaining: (order_pre.remaining - t.size) as u64, ..order_pre };
            assert(order == taker2);
            if maker.remaining == trade.size {
                assert(opposite@ =~= opp_pre.drop_first());
                assert(all_resident(opposite@)) by {
                    assert forall|i: int| 0 <= i < opposite@.len() implies resident(
                        #[trigger] opposite@[i],
                    ) by {
                        assert(opposite@[i] == opp_pre[i + 1]);
                    }
                }
                let mc = spec_match(opposite@, order);
                assert(m_pre.trades == seq![t] + mc.trades);
                assert(m_pre.opposite == mc.opposite);
                assert(m_pre.taker == mc.taker);
                assert(m0.trades == trades_pre + (seq![t] + mc.trades));
                assert(trades_pre + (seq![t] + mc.trades) =~= trades_pre.push(trade) + mc.trades);
                assert(trades@ == trades_pre.push(trade));
            } else {
                let maker2 = Order { remaining: (maker.remaining - trade.size) as u64, ..maker };
                assert(opposite@ =~= opp_pre.update(0, maker2));
                assert(all_resident(opposite@)) by {
                    assert forall|i: int| 0 <= i < opposite@.len() implies resident(
                        #[trigger] opposite@[i],
                    ) by {
                        if i > 0 {
                            assert(opposite@[i] == opp_pre[i]);
                        }
                    }
                }
                assert(order.remaining == 0);
                let mc = spec_match(opposite@, order);
                assert(mc.trades == Seq::<Trade>::empty());
                assert(m_pre.trades == seq![t] + mc.trades) by {
                    assert(m_pre.trades == seq![t]);
                    assert(seq![t] + Seq::<Trade>::empty() =~= seq![t]);
                }
                assert(m_pre.opposite == mc.opposite);
                assert(m_pre.taker == mc.taker);
                assert(m0.trades == trades_pre + (seq![t] + mc.trades));
                assert(trades_pre + (seq![t] + mc.trades) =~= trades_pre.push(trade) + mc.trades);
                assert(trades@ == trades_pre.push(trade));
            }
        }
    }
    proof {
        let m0 = spec_match(opp0, taker);
        let mc = spec_match(opposite@, order);
        assert(mc.trades == Seq::<Trade>::empty());
        assert(trades@ + Seq::<Trade>::empty() =~= trades@);
        assert(m0.trades == trades@);
    }
    (trades, order)
}



impl Book {
    /// Matches the arriving taker against the opposite queue in price-time
    /// order, emitting one trade per fill, and lets any unfilled remainder
    /// rest in the taker's own queue.  Trades, the opposite queue afterwards
    /// and the resting position of the remainder are exactly those of
    /// `spec_match` and `spec_insert_order`.
    pub fn execute_order(&mut self, order: Order) -> (trades: Vec<Trade>)
        requires
            old(self).well_formed(),
            order.remaining <= order.size,
        ensures
            final(self).well_formed(),
            ({
                let m = spec_match(opposite_side(*old(self), order.side), order);
                &&& trades@ == m.trades
                &&& opposite_side(*final(self), order.side) == m.opposite
                &&& same_side(*final(self), order.side) == (if m.taker.remaining > 0 {
                    spec_insert_order(order.side, same_side(*old(self), order.side), m.taker)
                } else {
                    same_side(*old(self), order.side)
                })
            }),
    {
        let ghost opp0 = opposite_side(*old(self), order.side);
        let ghost same0 = same_side(*old(self), order.side);
        let ghost m = spec_match(opp0, order);
        proof {
            assert(same_except_remaining(m.taker, order)) by {
                lemma_match_shape(opp0, order);
            }
        }
        let (trades, rest) = match order.side {
            OrderSide::Buy => match_against(&mut self.asks, order),
            OrderSide::Sell => match_against(&mut self.bids, order),
        };
        if rest.remaining > 0 {
            match order.side {
                OrderSide::Buy => insert_sorted(&mut self.bids, rest),
                OrderSide::Sell => insert_sorted(&mut self.asks, rest),
            }
        }
        proof {
            let same1 = if m.taker.remaining > 0 {
                spec_insert_order(order.side, same0, m.taker)
            } else {
                same0
            };
            assert(all_resident(m.opposite) && all_resident(same1) && all_side(
                m.opposite,
                other_side(order.side),
            ) && all_side(same1, order.side) && price_sorted(other_side(order.side), m.opposite)
                && price_sorted(order.side, same1) && (same1.len() > 0 && m.opposite.len() > 0
                ==> worse_price(order.side, same1[0].price, m.opposite[0].price))) by {
                lemma_after_match_wf(order.side, same0, opp0, order);
            }
            match order.side {
                OrderSide::Buy => {
                    assert(self.bids@ == same1);
                    assert(self.asks@ == m.opposite);
                    assert(no_cross(self.bids@, self.asks@));
                },
                OrderSide::Sell => {
                    assert(self.asks@ == same1);
                    assert(self.bids@ == m.opposite);
                    assert(no_cross(self.bids@, self.asks@));
                },
            }
        }
        trades
    }
}


/// The index of the first order carrying `id`, or -1 when none does.
pub open spec fn spec_find_order(s: Seq<Order>, id: OrderId) -> int
    decreases s.len(),
{
    if s.len() == 0 {
        -1
    } else if s[0].id == id {
        0
    } else {
        let r = spec_find_order(s.drop_first(), id);
        if r == -1 {
            -1
        } else {
            r + 1
        }
    }
}

proof fn lemma_find_order_char(s: Seq<Order>, id: OrderId)
    ensures
        -1 <= spec_find_order(s, id) < s.len(),
        spec_find_order(s, id) == -1 ==> forall|i: int| 0 <= i < s.len() ==> (#[trigger] s[i]).id
            != id,
        spec_find_order(s, id) >= 0 ==> s[spec_find_order(s, id)].id == id && (forall|i: int|
            0 <= i < spec_find_order(s, id) ==> (#[trigger] s[i]).id != id),
    decreases s.len(),
{
    if s.len() == 0 {
    } else if s[0].id == id {
    } else {
        lemma_find_order_char(s.drop_first(), id);
        let r = spec_find_order(s.drop_first(), id);
        assert forall|i: int| 1 <= i < s.len() implies s.drop_first()[i - 1] == s[i] by {}
        if r >= 0 {
            assert(s[r + 1].id == id);
        }
    }
}

/// Removing one order leaves a queue well formed, with a head no better
/// priced than before.
proof fn lemma_remove_wf(side: OrderSide, s: Seq<Order>, i: int)
    requires
        price_sorted(side, s),
        all_resident(s),
        all_side(s, side),
        0 <= i < s.len(),
    ensures
        price_sorted(side, s.remove(i)),
        all_resident(s.remove(i)),
        all_side(s.remove(i), side),
        s.remove(i).len() == s.len() - 1,
        s.remove(i).len() > 0 ==> !worse_price(side, s[0].price, s.remove(i)[0].price),
{
    let t = s.remove(i);
    s.remove_ensures(i);
    assert forall|p: int, q: int| 0 <= p < q < t.len() implies !worse_price(
        side,
        (#[trigger] t[p]).price,
        (#[trigger] t[q]).price,
    ) by {
        if p < i {
            assert(t[p] == s[p]);
        } else {
            assert(t[p] == s[p + 1]);
        }
        if q < i {
            assert(t[q] == s[q]);
        } else {
            assert(t[q] == s[q + 1]);
        }
    }
    assert forall|p: int| 0 <= p < t.len() implies resident(#[trigger] t[p]) && (#[trigger] t[p]).side
        == side by {
        if p < i {
            assert(t[p] == s[p]);
        } else {
            assert(t[p] == s[p + 1]);
        }
    }
    if t.len() > 0 {
        if i == 0 {
            assert(t[0] == s[1]);
        } else {
            assert(t[0] == s[0]);
        }
    }
}

/// Finds the first order with the given id.
fn find_order_index(list: &Vec<Order>, order_id: OrderId) -> (r: Option<usize>)
    ensures
        ({
            let f = spec_find_order(list@, order_id);
            match r {
                Some(i) => f == i as int,
                None => f == -1,
            }
        }),
{
    proof {
        lemma_find_order_char(list@, order_id);
    }
    let mut i: usize = 0;
    loop
        invariant
            i <= list@.len(),
            forall|j: int| 0 <= j < i ==> (#[trigger] list@[j]).id != order_id,
        ensures
            i <= list@.len(),
            forall|j: int| 0 <= j < i ==> (#[trigger] list@[j]).id != order_id,
            i < list@.len() ==> list@[i as int].id == order_id,
        decreases list@.len() - i,
    {
        if i == list.len() {
            break ;
        }
        if list[i].id == order_id {
            break ;
        }
        i = i + 1;
    }
    if i == list.len() {
        None
    } else {
        Some(i)
    }
}

impl Book {
    /// Removes the first order carrying `order_id`, searching bids first,
    /// then asks, and returns it with its current remaining quantity; an
    /// unknown id is reported, not applied.
    pub fn cancel_order(&mut self, order_id: OrderId) -> (r: Result<Order, ()>)
        requires
            old(self).well_formed(),
        ensures
            final(self).well_formed(),
            ({
                let bi = spec_find_order(old(self).bids@, order_id);
                let ai = spec_find_order(old(self).asks@, order_id);
                if bi >= 0 {
                    &&& r == Ok::<Order, ()>(old(self).bids@[bi])
                    &&& final(self).bids@ == old(self).bids@.remove(bi)
                    &&& final(self).asks@ == old(self).asks@
                } else if ai >= 0 {
                    &&& r == Ok::<Order, ()>(old(self).asks@[ai])
                    &&& final(self).asks@ == old(self).asks@.remove(ai)
                    &&& final(self).bids@ == old(self).bids@
                } else {
                    &&& r == Err::<Order, ()>(())
                    &&& final(self).bids@ == old(self).bids@
                    &&& final(self).asks@ == old(self).asks@
                }
            }),
    {
        match find_order_index(&self.bids, order_id) {
            Some(index) => {
                proof {
                    lemma_find_order_char(self.bids@, order_id);
                    lemma_remove_wf(OrderSide::Buy, self.bids@, index as int);
                }
                let order = self.bids.remove(index);
                return Ok(order);
            },
            None => {},
        }
        match find_order_index(&self.asks, order_id) {
            Some(index) => {
                proof {
                    lemma_find_order_char(self.bids@, order_id);
                    lemma_find_order_char(self.asks@, order_id);
                    lemma_remove_wf(OrderSide::Sell, self.asks@, index as int);
                }
                let order = self.asks.remove(index);
                return Ok(order);
            },
            None => {},
        }
        Err(())
    }
}


/// The trades matching will emit, computed by a read-only walk of the
/// opposite queue: the same function of the book as `spec_match`, without
/// touching it.
pub(crate) fn match_trades(opposite: &Vec<Order>, taker: Order) -> (trades: Vec<Trade>)
    ensures
        trades@ == spec_match(opposite@, taker).trades,
{
    let mut order = taker;
    let mut trades: Vec<Trade> = Vec::new();
    let mut i: usize = 0;
    proof {
        assert(opposite@.skip(0) =~= opposite@);
        assert(Seq::<Trade>::empty() + spec_match(opposite@, taker).trades =~= spec_match(
            opposite@,
            taker,
        ).trades);
    }
    loop
        invariant
            i <= opposite@.len(),
            ({
                let m0 = spec_match(opposite@, taker);
                let mc = spec_match(opposite@.skip(i as int), order);
                m0.trades == trades@ + mc.trades
            }),
        ensures
            ({
                let m0 = spec_match(opposite@, taker);
                m0.trades == trades@ + spec_match(opposite@.skip(i as int), order).trades
                    && spec_match(opposite@.skip(i as int), order).trades == Seq::<Trade>::empty()
            }),
        decreases opposite@.len() - i + order.remaining,
    {
        if order.remaining == 0 {
            break ;
        }
        if i == opposite.len() {
            proof {
                assert(opposite@.skip(i as int) =~= Seq::<Order>::empty());
            }
            break ;
        }
        let maker = opposite[i];
        proof {
            assert(opposite@.skip(i as int)[0] == opposite@[i as int]);
        }
        let cross = match order.side {
            OrderSide::Buy => order.price >= maker.price,
            OrderSide::Sell => order.price <= maker.price,
        };
        if !cross {
            break ;
        }
        let ghost i0 = i as int;
        let ghost order_pre = order;
        let ghost trades_pre = trades@;
        let trade = Trade::new(&maker, &order);
        order.remaining = order.remaining - trade.size;
        trades.push(trade);
        if maker.remaining == trade.size {
            i = i + 1;
        }
        proof {
            let m0 = spec_match(opposite@, taker);
            let m_pre = spec_match(opposite@.skip(i0), order_pre);
            let t = spec_trade(opposite@.skip(i0)[0], order_pre);
            assert(crosses(order_pre, opposite@.skip(i0)[0]));
            assert(t == trade);
            let taker2 = Order { remaining: (order_pre.remaining - t.size) as u64, ..order_pre };
            assert(order == taker2);
            if maker.remaining == trade.size {
                assert(opposite@.skip(i0).drop_first() =~= opposite@.skip(i0 + 1));
                let mc = spec_match(opposite@.skip(i0 + 1), order);
                assert(m_pre.trades == seq![t] + mc.trades);
                assert(m0.trades == trades_pre + (seq![t] + mc.trades));
                assert(trades_pre + (seq![t] + mc.trades) =~= trades_pre.push(trade) + mc.trades);
                assert(trades@ == trades_pre.push(trade));
            } else {
                assert(order.remaining == 0);
                let mc = spec_match(opposite@.skip(i0), order);
                assert(mc.trades == Seq::<Trade>::empty());
                assert(m_pre.trades == seq![t]);
                assert(m0.trades == trades_pre + seq![t]);
                assert(trades_pre + seq![t] =~= trades_pre.push(trade) + Seq::<Trade>::empty());
                assert(trades@ == trades_pre.push(trade));
            }
        }
    }
    proof {
        assert(trades@ + Seq::<Trade>::empty() =~= trades@);
    }
    trades
}

impl Book {
    /// The resting order carrying `order_id`, bids searched first, read
    /// without removing it: what `cancel_order` would remove.
    pub(crate) fn peek_order(&self, order_id: OrderId) -> (r: Option<Order>)
        ensures
            ({
                let bi = spec_find_order(self.bids@, order_id);
                let ai = spec_find_order(self.asks@, order_id);
                if bi >= 0 {
                    r == Some(self.bids@[bi])
                } else if ai >= 0 {
                    r == Some(self.asks@[ai])
                } else {
                    r == None::<Order>
                }
            }),
    {
        proof {
            lemma_find_order_char(self.bids@, order_id);
            lemma_find_order_char(self.asks@, order_id);
        }
        match find_order_index(&self.bids, order_id) {
            Some(index) => Some(self.bids[index]),
            None => match find_order_index(&self.asks, order_id) {
                Some(index) => Some(self.asks[index]),
                None => None,
            },
        }
    }
}


/// No cross: in every well-formed book — and `execute_order` and
/// `cancel_order` keep every book well formed — the best bid stands
/// strictly below the best ask, or one side is empty.
pub proof fn lemma_no_cross(b: Book)
    requires
        b.well_formed(),
    ensures
        b.bids@.len() > 0 && b.asks@.len() > 0 ==> b.bids@[0].price < b.asks@[0].price,
{
}

} // verus!
