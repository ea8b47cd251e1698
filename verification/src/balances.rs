//! Per-user, per-asset signed balances, and the settlement rules that tie
//! them to orders and trades.
//!
//! A missing entry means a balance of zero.  Balances may go negative:
//! administrative adjustments are unconditional, and insufficiency is the
//! engine's validation concern, checked before any debit.

use vstd::prelude::*;

use crate::utils::{AssetId, Config, Order, OrderSide, Trade, UserId};
use crate::utils::{spec_market, spec_market_known};

verus! {

pub type Amount = i64;

/// One (user, asset) balance.
#[derive(Copy, Clone, Debug, PartialEq, Eq, Structural)]
pub struct BalanceEntry {
    pub user_id: UserId,
    pub asset_id: AssetId,
    pub amount: Amount,
}

/// The balance the entry list gives a user in an asset; zero when absent.
pub open spec fn spec_balance_seq(s: Seq<BalanceEntry>, u: UserId, a: AssetId) -> int
    decreases s.len(),
{
    if s.len() == 0 {
        0
    } else if s[0].user_id == u && s[0].asset_id == a {
        s[0].amount as int
    } else {
        spec_balance_seq(s.drop_first(), u, a)
    }
}

/// The sum a single asset holds over all users.
pub open spec fn spec_asset_total(s: Seq<BalanceEntry>, a: AssetId) -> int
    decreases s.len(),
{
    if s.len() == 0 {
        0
    } else {
        (if s[0].asset_id == a {
            s[0].amount as int
        } else {
            0
        }) + spec_asset_total(s.drop_first(), a)
    }
}

pub open spec fn keys_unique(s: Seq<BalanceEntry>) -> bool {
    forall|i: int, j: int| 0 <= i < j < s.len() ==> ((#[trigger] s[i]).user_id != (
    #[trigger] s[j]).user_id || s[i].asset_id != s[j].asset_id)
}

/// The asset an order's collateral is reserved in: the quote asset for a
/// buy (it pays), the base asset for a sell (it delivers).
pub open spec fn spec_reserve_asset(c: Config, o: Order) -> AssetId {
    match o.side {
        OrderSide::Buy => spec_market(c, o.market_id).quote_asset_id,
        OrderSide::Sell => spec_market(c, o.market_id).base_asset_id,
    }
}

/// The collateral an order reserves, computed from its current unfilled
/// quantity: `remaining * price` quote units for a buy, `remaining` base
/// units for a sell.
pub open spec fn spec_requirement(o: Order) -> int {
    match o.side {
        OrderSide::Buy => o.remaining * o.price,
        OrderSide::Sell => o.remaining as int,
    }
}

/// The buying and selling users of a trade: the maker's side says which
/// role it played.
pub open spec fn spec_buy_user(t: Trade) -> UserId {
    match t.side {
        OrderSide::Buy => t.maker_user_id,
        OrderSide::Sell => t.taker_user_id,
    }
}

pub open spec fn spec_sell_user(t: Trade) -> UserId {
    match t.side {
        OrderSide::Buy => t.taker_user_id,
        OrderSide::Sell => t.maker_user_id,
    }
}

proof fn lemma_balance_update(s: Seq<BalanceEntry>, i: int, e: BalanceEntry)
    requires
        0 <= i < s.len(),
        s[i].user_id == e.user_id,
        s[i].asset_id == e.asset_id,
        forall|j: int| 0 <= j < i ==> ((#[trigger] s[j]).user_id != e.user_id || s[j].asset_id
            != e.asset_id),
    ensures
        forall|u: UserId, a: AssetId|
            #![trigger spec_balance_seq(s.update(i, e), u, a)]
            spec_balance_seq(s.update(i, e), u, a) == (if u == e.user_id && a == e.asset_id {
                e.amount as int
            } else {
                spec_balance_seq(s, u, a)
            }),
        forall|a: AssetId| #![trigger spec_asset_total(s.update(i, e), a)]
            spec_asset_total(s.update(i, e), a) == spec_asset_total(s, a) + (if e.asset_id == a {
                e.amount - s[i].amount
            } else {
                0
            }),
    decreases s.len(),
{
    let t = s.update(i, e);
    if i == 0 {
        assert(t.drop_first() =~= s.drop_first());
        assert forall|u: UserId, a: AssetId|
            #[trigger] spec_balance_seq(t, u, a) == (if u == e.user_id && a == e.asset_id {
                e.amount as int
            } else {
                spec_balance_seq(s, u, a)
            }) by {}
    } else {
        assert(t.drop_first() =~= s.drop_first().update(i - 1, e));
        assert forall|j: int| 0 <= j < i - 1 implies ((#[trigger] s.drop_first()[j]).user_id
            != e.user_id || s.drop_first()[j].asset_id != e.asset_id) by {
            assert(s.drop_first()[j] == s[j + 1]);
        }
        assert(s.drop_first()[i - 1] == s[i]);
        lemma_balance_update(s.drop_first(), i - 1, e);
        assert forall|u: UserId, a: AssetId|
            #[trigger] spec_balance_seq(t, u, a) == (if u == e.user_id && a == e.asset_id {
                e.amount as int
            } else {
                spec_balance_seq(s, u, a)
            }) by {
            assert(t[0] == s[0]);
            assert(spec_balance_seq(t.drop_first(), u, a) == spec_balance_seq(
                s.drop_first().update(i - 1, e),
                u,
                a,
            ));
        }
        assert forall|a: AssetId|
            #[trigger] spec_asset_total(t, a) == spec_asset_total(s, a) + (if e.asset_id == a {
                e.amount - s[i].amount
            } else {
                0
            }) by {
            assert(t[0] == s[0]);
            assert(spec_asset_total(t.drop_first(), a) == spec_asset_total(
                s.drop_first().update(i - 1, e),
                a,
            ));
        }
    }
}

proof fn lemma_balance_push(s: Seq<BalanceEntry>, e: BalanceEntry)
    requires
        forall|j: int| 0 <= j < s.len() ==> ((#[trigger] s[j]).user_id != e.user_id || s[j].asset_id
            != e.asset_id),
    ensures
        forall|u: UserId, a: AssetId|
            #![trigger spec_balance_seq(s.push(e), u, a)]
            spec_balance_seq(s.push(e), u, a) == (if u == e.user_id && a == e.asset_id {
                e.amount as int
            } else {
                spec_balance_seq(s, u, a)
            }),
        forall|a: AssetId| #![trigger spec_asset_total(s.push(e), a)]
            spec_asset_total(s.push(e), a) == spec_asset_total(s, a) + (if e.asset_id == a {
                e.amount as int
            } else {
                0
            }),
    decreases s.len(),
{
    let t = s.push(e);
    if s.len() == 0 {
        assert(t.drop_first() =~= Seq::<BalanceEntry>::empty());
        assert(t[0] == e);
        assert forall|u: UserId, a: AssetId|
            #[trigger] spec_balance_seq(t, u, a) == (if u == e.user_id && a == e.asset_id {
                e.amount as int
            } else {
                spec_balance_seq(s, u, a)
            }) by {
            assert(spec_balance_seq(Seq::<BalanceEntry>::empty(), u, a) == 0);
            assert(spec_balance_seq(s, u, a) == 0);
        }
        assert forall|a: AssetId|
            #[trigger] spec_asset_total(t, a) == spec_asset_total(s, a) + (if e.asset_id == a {
                e.amount as int
            } else {
                0
            }) by {
            assert(spec_asset_total(Seq::<BalanceEntry>::empty(), a) == 0);
            assert(spec_asset_total(s, a) == 0);
        }
    } else {
        assert(t.drop_first() =~= s.drop_first().push(e));
        assert forall|j: int| 0 <= j < s.drop_first().len() implies ((#[trigger] s.drop_first()[j]).user_id != e.user_id || s.drop_first()[j].asset_id != e.asset_id) by {
            assert(s.drop_first()[j] == s[j + 1]);
        }
        lemma_balance_push(s.drop_first(), e);
        assert forall|u: UserId, a: AssetId|
            #[trigger] spec_balance_seq(t, u, a) == (if u == e.user_id && a == e.asset_id {
                e.amount as int
            } else {
                spec_balance_seq(s, u, a)
            }) by {
            assert(t[0] == s[0]);
            assert(spec_balance_seq(t.drop_first(), u, a) == spec_balance_seq(
                s.drop_first().push(e),
                u,
                a,
            ));
        }
        assert forall|a: AssetId|
            #[trigger] spec_asset_total(t, a) == spec_asset_total(s, a) + (if e.asset_id == a {
                e.amount as int
            } else {
                0
            }) by {
            assert(t[0] == s[0]);
            assert(spec_asset_total(t.drop_first(), a) == spec_asset_total(
                s.drop_first().push(e),
                a,
            ));
        }
    }
}


/// A balance read from the entry list always fits the amount type.
pub proof fn lemma_balance_in_range(s: Seq<BalanceEntry>, u: UserId, a: AssetId)
    ensures
        i64::MIN <= spec_balance_seq(s, u, a) <= i64::MAX,
    decreases s.len(),
{
    if s.len() == 0 {
    } else if s[0].user_id == u && s[0].asset_id == a {
    } else {
        lemma_balance_in_range(s.drop_first(), u, a);
    }
}

/// Per-user, per-asset balances, together with the market registry that
/// settlement consults.
#[derive(Clone, Debug)]
pub struct Balances {
    pub entries: Vec<BalanceEntry>,
    pub config: Config,
}

impl Balances {
    /// No entry names the same user and asset twice.
    pub open spec fn wf(self) -> bool {
        keys_unique(self.entries@)
    }

    /// The balance of `u` in `a`; zero when no entry exists.
    pub open spec fn spec_balance(self, u: UserId, a: AssetId) -> int {
        spec_balance_seq(self.entries@, u, a)
    }

    pub fn new(config: Config) -> (r: Balances)
        ensures
            r.wf(),
            r.config == config,
            forall|u: UserId, a: AssetId| r.spec_balance(u, a) == 0,
    {
        let r = Balances { entries: Vec::new(), config };
        proof {
            assert forall|u: UserId, a: AssetId| r.spec_balance(u, a) == 0 by {}
        }
        r
    }

    /// The additive mutation every balance change goes through: adds
    /// `change` to the balance of `u` in `a` and returns the new balance.
    /// No other balance, and no other asset's total, moves.
    pub fn adjust_balance(&mut self, user_id: UserId, asset_id: AssetId, change: Amount) -> (r:
        Amount)
        requires
            old(self).wf(),
            i64::MIN <= old(self).spec_balance(user_id, asset_id) + change <= i64::MAX,
        ensures
            final(self).wf(),
            final(self).config == old(self).config,
            r == old(self).spec_balance(user_id, asset_id) + change,
            forall|u: UserId, a: AssetId|
                #![trigger final(self).spec_balance(u, a)]
                final(self).spec_balance(u, a) == (if u == user_id && a == asset_id {
                    old(self).spec_balance(user_id, asset_id) + change
                } else {
                    old(self).spec_balance(u, a)
                }),
            forall|a: AssetId| #![trigger spec_asset_total(final(self).entries@, a)]
                spec_asset_total(final(self).entries@, a) == spec_asset_total(old(self).entries@, a)
                    + (if a == asset_id {
                    change as int
                } else {
                    0
                }),
    {
        let ghost s0 = self.entries@;
        let mut i: usize = 0;
        loop
            invariant
                i <= self.entries@.len(),
                forall|j: int| 0 <= j < i ==> ((#[trigger] self.entries@[j]).user_id != user_id
                    || self.entries@[j].asset_id != asset_id),
            ensures
                i <= self.entries@.len(),
                forall|j: int| 0 <= j < i ==> ((#[trigger] self.entries@[j]).user_id != user_id
                    || self.entries@[j].asset_id != asset_id),
                i < self.entries@.len() ==> self.entries@[i as int].user_id == user_id
                    && self.entries@[i as int].asset_id == asset_id,
            decreases self.entries@.len() - i,
        {
            if i == self.entries.len() {
                break ;
            }
            let e = self.entries[i];
            if e.user_id == user_id && e.asset_id == asset_id {
                break ;
            }
            i = i + 1;
        }
        proof {
            lemma_balance_first_match(s0, user_id, asset_id, i as int);
        }
        if i < self.entries.len() {
            let prev = self.entries[i].amount;
            let next = prev + change;
            let e = BalanceEntry { user_id, asset_id, amount: next };
            self.entries[i] = e;
            proof {
                lemma_balance_update(s0, i as int, e);
                assert forall|p: int, q: int| 0 <= p < q < self.entries@.len() implies ((
                #[trigger] self.entries@[p]).user_id != (#[trigger] self.entries@[q]).user_id
                    || self.entries@[p].asset_id != self.entries@[q].asset_id) by {
                    if p != i as int && q != i as int {
                        assert(self.entries@[p] == s0[p]);
                        assert(self.entries@[q] == s0[q]);
                    }
                }
            }
            next
        } else {
            let e = BalanceEntry { user_id, asset_id, amount: change };
            self.entries.push(e);
            proof {
                lemma_balance_push(s0, e);
                assert forall|p: int, q: int| 0 <= p < q < self.entries@.len() implies ((
                #[trigger] self.entries@[p]).user_id != (#[trigger] self.entries@[q]).user_id
                    || self.entries@[p].asset_id != self.entries@[q].asset_id) by {
                    if q < s0.len() {
                        assert(self.entries@[p] == s0[p]);
                        assert(self.entries@[q] == s0[q]);
                    } else {
                        assert(self.entries@[p] == s0[p]);
                        assert(self.entries@[q] == e);
                    }
                }
            }
            change
        }
    }

    /// The balance of `u` in `a`; a user or asset never seen has zero.
    pub fn get_balance(&self, user_id: UserId, asset_id: AssetId) -> (r: Amount)
        ensures
            r == self.spec_balance(user_id, asset_id),
    {
        proof {
            assert(self.entries@.skip(0) =~= self.entries@);
        }
        let mut i: usize = 0;
        loop
            invariant
                i <= self.entries@.len(),
                spec_balance_seq(self.entries@, user_id, asset_id) == spec_balance_seq(
                    self.entries@.skip(i as int),
                    user_id,
                    asset_id,
                ),
            ensures
                i <= self.entries@.len(),
                spec_balance_seq(self.entries@, user_id, asset_id) == spec_balance_seq(
                    self.entries@.skip(i as int),
                    user_id,
                    asset_id,
                ),
                i < self.entries@.len() ==> self.entries@[i as int].user_id == user_id
                    && self.entries@[i as int].asset_id == asset_id,
            decreases self.entries@.len() - i,
        {
            if i == self.entries.len() {
                break ;
            }
            let e = self.entries[i];
            if e.user_id == user_id && e.asset_id == asset_id {
                break ;
            }
            proof {
                assert(self.entries@.skip(i as int).drop_first() =~= self.entries@.skip(
                    i as int + 1,
                ));
                assert(self.entries@.skip(i as int)[0] == self.entries@[i as int]);
            }
            i = i + 1;
        }
        if i < self.entries.len() {
            proof {
                assert(self.entries@.skip(i as int)[0] == self.entries@[i as int]);
            }
            self.entries[i].amount
        } else {
            proof {
                assert(self.entries@.skip(i as int) =~= Seq::<BalanceEntry>::empty());
            }
            0
        }
    }
}

/// At the first matching index, every earlier entry names another key.
proof fn lemma_balance_first_match(s: Seq<BalanceEntry>, u: UserId, a: AssetId, i: int)
    requires
        0 <= i <= s.len(),
        forall|j: int| 0 <= j < i ==> ((#[trigger] s[j]).user_id != u || s[j].asset_id != a),
        i == s.len() || (s[i].user_id == u && s[i].asset_id == a),
    ensures
        i == s.len() ==> spec_balance_seq(s, u, a) == 0,
        i < s.len() ==> spec_balance_seq(s, u, a) == s[i].amount as int,
    decreases s.len(),
{
    if s.len() == 0 {
    } else if s[0].user_id == u && s[0].asset_id == a {
    } else {
        assert forall|j: int| 0 <= j < i - 1 implies ((#[trigger] s.drop_first()[j]).user_id != u
            || s.drop_first()[j].asset_id != a) by {
            assert(s.drop_first()[j] == s[j + 1]);
        }
        if i < s.len() {
            assert(s.drop_first()[i - 1] == s[i]);
        }
        lemma_balance_first_match(s.drop_first(), u, a, i - 1);
    }
}


impl Balances {
    /// The asset and amount an order must reserve, from its current
    /// unfilled quantity.
    fn get_requirement_for_order(&self, order: &Order) -> (r: (AssetId, Amount))
        requires
            spec_market_known(self.config, order.market_id),
            spec_requirement(*order) <= i64::MAX as int,
        ensures
            r.0 == spec_reserve_asset(self.config, *order),
            r.1 as int == spec_requirement(*order),
            r.1 >= 0,
    {
        let index = match self.config.find_market(order.market_id) {
            Some(i) => i,
            None => {
                proof {
                    assert(false);
                }
                0
            },
        };
        let market = &self.config.markets[index];
        match order.side {
            OrderSide::Buy => {
                let product: u128 = (order.remaining as u128) * (order.price as u128);
                (market.quote_asset_id, product as i64)
            },
            OrderSide::Sell => (market.base_asset_id, order.remaining as i64),
        }
    }

    /// Whether the submitter's balance in the reserve asset covers the
    /// order's full requirement.  An order whose requirement exceeds any
    /// representable balance is never affordable.
    pub fn user_can_afford_order(&self, order: &Order) -> (r: bool)
        requires
            spec_market_known(self.config, order.market_id),
        ensures
            r == (self.spec_balance(order.user_id, spec_reserve_asset(self.config, *order))
                >= spec_requirement(*order)),
    {
        let index = match self.config.find_market(order.market_id) {
            Some(i) => i,
            None => {
                proof {
                    assert(false);
                }
                0
            },
        };
        let market = &self.config.markets[index];
        proof {
            assert((order.remaining as int) * (order.price as int) <= (u64::MAX as int) * (
            u64::MAX as int)) by (nonlinear_arith)
                requires
                    order.remaining <= u64::MAX,
                    order.price <= u64::MAX,
            ;
        }
        let (asset_id, requirement): (AssetId, u128) = match order.side {
            OrderSide::Buy => (
                market.quote_asset_id,
                (order.remaining as u128) * (order.price as u128),
            ),
            OrderSide::Sell => (market.base_asset_id, order.remaining as u128),
        };
        let balance = self.get_balance(order.user_id, asset_id);
        if requirement > i64::MAX as u128 {
            false
        } else {
            balance >= requirement as i64
        }
    }

    /// Reserves an order's collateral: debits the full requirement from
    /// the submitter's balance in the reserve asset.
    pub fn debit_for_order(&mut self, order: &Order)
        requires
            old(self).wf(),
            spec_market_known(old(self).config, order.market_id),
            spec_requirement(*order) <= i64::MAX as int,
            i64::MIN <= old(self).spec_balance(
                order.user_id,
                spec_reserve_asset(old(self).config, *order),
            ) - spec_requirement(*order),
        ensures
            final(self).wf(),
            final(self).config == old(self).config,
            forall|u: UserId, a: AssetId|
                #![trigger final(self).spec_balance(u, a)]
                final(self).spec_balance(u, a) == old(self).spec_balance(u, a) - (if u
                    == order.user_id && a == spec_reserve_asset(old(self).config, *order) {
                    spec_requirement(*order)
                } else {
                    0
                }),
            forall|a: AssetId| #![trigger spec_asset_total(final(self).entries@, a)]
                spec_asset_total(final(self).entries@, a) == spec_asset_total(old(self).entries@, a)
                    - (if a == spec_reserve_asset(old(self).config, *order) {
                    spec_requirement(*order)
                } else {
                    0
                }),
    {
        let (asset_id, requirement) = self.get_requirement_for_order(order);
        proof {
            lemma_balance_in_range(self.entries@, order.user_id, asset_id);
        }
        self.adjust_balance(order.user_id, asset_id, -requirement);
    }

    /// Refunds a canceled order: credits back the requirement computed
    /// from its current remaining quantity, so partial fills refund only
    /// the unfilled portion.
    pub fn credit_for_canceled_order(&mut self, order: &Order)
        requires
            old(self).wf(),
            spec_market_known(old(self).config, order.market_id),
            spec_requirement(*order) <= i64::MAX as int,
            old(self).spec_balance(order.user_id, spec_reserve_asset(old(self).config, *order))
                + spec_requirement(*order) <= i64::MAX,
        ensures
            final(self).wf(),
            final(self).config == old(self).config,
            forall|u: UserId, a: AssetId|
                #![trigger final(self).spec_balance(u, a)]
                final(self).spec_balance(u, a) == old(self).spec_balance(u, a) + (if u
                    == order.user_id && a == spec_reserve_asset(old(self).config, *order) {
                    spec_requirement(*order)
                } else {
                    0
                }),
            forall|a: AssetId| #![trigger spec_asset_total(final(self).entries@, a)]
                spec_asset_total(final(self).entries@, a) == spec_asset_total(old(self).entries@, a)
                    + (if a == spec_reserve_asset(old(self).config, *order) {
                    spec_requirement(*order)
                } else {
                    0
                }),
    {
        let (asset_id, requirement) = self.get_requirement_for_order(order);
        proof {
            lemma_balance_in_range(self.entries@, order.user_id, asset_id);
        }
        self.adjust_balance(order.user_id, asset_id, requirement);
    }

    /// Settles one trade: the buying side receives the traded size in the
    /// base asset, the selling side receives `size * price` in the quote
    /// asset.  The sellers' proceeds are priced at the maker's price, which
    /// the trade carries.
    pub fn settle(&mut self, trade: &Trade)
        requires
            old(self).wf(),
            spec_market_known(old(self).config, trade.market_id),
            trade.size as int <= i64::MAX as int,
            (trade.price as int) * (trade.size as int) <= i64::MAX as int,
            i64::MIN <= old(self).spec_balance(
                spec_buy_user(*trade),
                spec_market(old(self).config, trade.market_id).base_asset_id,
            ) + trade.size as int <= i64::MAX,
            ({
                let mid = old(self).spec_balance(
                    spec_sell_user(*trade),
                    spec_market(old(self).config, trade.market_id).quote_asset_id,
                ) + (if spec_sell_user(*trade) == spec_buy_user(*trade) && spec_market(
                    old(self).config,
                    trade.market_id,
                ).quote_asset_id == spec_market(old(self).config, trade.market_id).base_asset_id {
                    trade.size as int
                } else {
                    0
                });
                i64::MIN <= mid + (trade.price as int) * (trade.size as int) <= i64::MAX
            }),
        ensures
            final(self).wf(),
            final(self).config == old(self).config,
            forall|u: UserId, a: AssetId|
                #![trigger final(self).spec_balance(u, a)]
                final(self).spec_balance(u, a) == old(self).spec_balance(u, a) + (if u
                    == spec_buy_user(*trade) && a == spec_market(
                    old(self).config,
                    trade.market_id,
                ).base_asset_id {
                    trade.size as int
                } else {
                    0
                }) + (if u == spec_sell_user(*trade) && a == spec_market(
                    old(self).config,
                    trade.market_id,
                ).quote_asset_id {
                    (trade.price as int) * (trade.size as int)
                } else {
                    0
                }),
            forall|a: AssetId| #![trigger spec_asset_total(final(self).entries@, a)]
                spec_asset_total(final(self).entries@, a) == spec_asset_total(old(self).entries@, a)
                    + (if a == spec_market(old(self).config, trade.market_id).base_asset_id {
                    trade.size as int
                } else {
                    0
                }) + (if a == spec_market(old(self).config, trade.market_id).quote_asset_id {
                    (trade.price as int) * (trade.size as int)
                } else {
                    0
                }),
    {
        let index = match self.config.find_market(trade.market_id) {
            Some(i) => i,
            None => {
                proof {
                    assert(false);
                }
                0
            },
        };
        let base_asset_id = self.config.markets[index].base_asset_id;
        let quote_asset_id = self.config.markets[index].quote_asset_id;
        let total: i64 = ((trade.price as u128) * (trade.size as u128)) as i64;
        let (buy_user_id, sell_user_id) = match trade.side {
            OrderSide::Buy => (trade.maker_user_id, trade.taker_user_id),
            OrderSide::Sell => (trade.taker_user_id, trade.maker_user_id),
        };
        self.adjust_balance(buy_user_id, base_asset_id, trade.size as i64);
        self.adjust_balance(sell_user_id, quote_asset_id, total);
    }
}

/// Refund exactness: what creating an order debits equals what its fills
/// consume of the reserve, valued at the order's own reserve price, plus
/// what cancelling the remainder refunds.
pub proof fn lemma_refund_exactness(o: Order, filled: u64)
    requires
        filled <= o.remaining,
    ensures
        spec_requirement(o) == spec_requirement(
            Order { remaining: (o.remaining - filled) as u64, ..o },
        ) + (match o.side {
            OrderSide::Buy => filled * o.price,
            OrderSide::Sell => filled as int,
        }),
{
    let rest = (o.remaining - filled) as u64;
    assert(o.remaining as int * o.price as int == rest as int * o.price as int + filled as int
        * o.price as int) by (nonlinear_arith)
        requires
            rest as int == o.remaining as int - filled as int,
    ;
}


/// Conservation per asset across one fill.  Writing `t` for the trade a
/// maker and a taker produce, the selling order's reserve releases exactly
/// the `t.size` base units the buyer is credited, and the buying order's
/// reserve releases `t.size * buy.price` quote units, of which the seller
/// is credited `t.size * t.price`.  The two are equal when the buyer is
/// the maker (the trade carries the maker's price); when the buyer is the
/// taker, the price improvement `t.size * (buy.price - t.price)` stays
/// debited until the order completes or is canceled.
pub proof fn lemma_fill_conserves_reserves(maker: Order, taker: Order)
    requires
        maker.side != taker.side,
        maker.remaining > 0,
        taker.remaining > 0,
    ensures
        ({
            let t = crate::utils::spec_trade(maker, taker);
            let buy = if maker.side == OrderSide::Buy {
                maker
            } else {
                taker
            };
            let sell = if maker.side == OrderSide::Buy {
                taker
            } else {
                maker
            };
            let buy_after = Order { remaining: (buy.remaining - t.size) as u64, ..buy };
            let sell_after = Order { remaining: (sell.remaining - t.size) as u64, ..sell };
            &&& spec_requirement(sell) - spec_requirement(sell_after) == t.size as int
            &&& spec_requirement(buy) - spec_requirement(buy_after) == t.size * buy.price
            &&& (maker.side == OrderSide::Buy ==> spec_requirement(buy) - spec_requirement(
                buy_after,
            ) == (t.size as int) * (t.price as int))
        }),
{
    let t = crate::utils::spec_trade(maker, taker);
    let buy = if maker.side == OrderSide::Buy {
        maker
    } else {
        taker
    };
    let buy_after = Order { remaining: (buy.remaining - t.size) as u64, ..buy };
    assert((buy.remaining as int) * (buy.price as int) - (buy_after.remaining as int) * (
    buy.price as int) == (t.size as int) * (buy.price as int)) by (nonlinear_arith)
        requires
            buy_after.remaining as int == buy.remaining as int - t.size as int,
    ;
}

} // verus!
