//! The deterministic transition function: validate, sequence, journal,
//! apply.
//!
//! The engine owns the book, the balances, the sequencer and a journal
//! writer.  A live command is validated read-only, stamped with the next
//! sequence number, journaled, and only then applied; replay feeds already
//! stamped commands through the same application path, checking that their
//! sequence numbers are contiguous.  Application is atomic per command: a
//! command either applies in full or is reported with the state unchanged,
//! and every condition replayed or live data may break is reported as an
//! error, never a panic.  The observable state transition of every command
//! is the function `spec_apply_abs` of the old state and the payload.

use vstd::prelude::*;

use crate::balances::{
    lemma_balance_in_range, spec_buy_user, spec_requirement, spec_reserve_asset, spec_sell_user,
    Balances,
};
use crate::book::{
    match_trades, spec_find_order, spec_insert_order, spec_match, Book,
};
use crate::messages::{Message, MessagePayload};
use crate::sequencer::Sequencer;
use crate::utils::{spec_market, spec_market_known, AssetId, Config, Order, OrderSide, Trade, UserId};

verus! {

/// What can go wrong while validating or applying a command.  Only
/// `InsufficientFunds` is a routine rejection; the rest are fatal to an
/// engine whose journal and state must agree.
#[derive(Copy, Clone, Debug, PartialEq, Eq, Structural)]
pub enum EngineError {
    /// Validation: the submitter's reserve balance does not cover the order.
    InsufficientFunds,
    /// An order names a market the configuration does not know.
    UnknownMarket,
    /// The order's remaining quantity exceeds its size, or a fresh order
    /// is empty or already partly filled.
    InvalidOrder,
    /// A balance or a reserve requirement left the representable range.
    AmountOverflow,
    /// A cancellation names no resting order.
    OrderNotFound,
    /// A stamped command does not carry the next sequence number.
    SequenceGap,
    /// The journal writer failed; the stamped command was not applied.
    JournalIo,
}

/// A sink for applied commands.  A writer must persist each message it
/// accepts so that replay sees the applied messages in order; nothing is
/// assumed of outside implementations, and the engine keeps its own ghost
/// record of what it handed the writer.
pub trait JournalWriter {
    fn write(&mut self, message: &Message) -> Result<(), ()>;
}

/// An in-memory journal: the messages written, in order.  It backs tests
/// and replay without touching storage.
pub struct VecJournalWriter {
    pub messages: Vec<Message>,
}

impl VecJournalWriter {
    pub fn new() -> (r: VecJournalWriter)
        ensures
            r.messages@ == Seq::<Message>::empty(),
    {
        VecJournalWriter { messages: Vec::new() }
    }
}

impl JournalWriter for VecJournalWriter {
    fn write(&mut self, message: &Message) -> (r: Result<(), ()>)
        ensures
            final(self).messages@ == old(self).messages@.push(*message),
            r is Ok,
    {
        self.messages.push(*message);
        Ok(())
    }
}

/// The engine: all mutable state of the venue, applied to by one command
/// at a time.  `journal` is the engine's ghost record of the stamped
/// messages it handed the writer, in order.
pub struct SuezEngine<W: JournalWriter> {
    pub sequencer: Sequencer,
    pub journaler: W,
    pub book: Book,
    pub balances: Balances,
    pub journal: Ghost<Seq<Message>>,
}

impl<W: JournalWriter> SuezEngine<W> {
    /// A fresh engine: empty book, empty balances, no command applied.
    pub fn new(config: Config, journaler: W) -> (r: SuezEngine<W>)
        ensures
            r.wf(),
            r.sequencer.sequence == 0,
            r.book.bids@ == Seq::<Order>::empty(),
            r.book.asks@ == Seq::<Order>::empty(),
            forall|u: UserId, a: AssetId| r.balances.spec_balance(u, a) == 0,
            r.balances.config == config,
            r.journal@ == Seq::<Message>::empty(),
    {
        SuezEngine {
            sequencer: Sequencer { sequence: 0 },
            journaler,
            book: Book::new(),
            balances: Balances::new(config),
            journal: Ghost(Seq::empty()),
        }
    }
}

/// The observable state of an engine: the two order queues and the total
/// balance map (zero where no entry exists).
#[verifier::ext_equal]
pub struct AbsState {
    pub bids: Seq<Order>,
    pub asks: Seq<Order>,
    pub bal: Map<(UserId, AssetId), int>,
}

/// The balances as a total map.
pub open spec fn bal_of(b: Balances) -> Map<(UserId, AssetId), int> {
    Map::total(|k: (UserId, AssetId)| b.spec_balance(k.0, k.1))
}

pub open spec fn abs_of(book: Book, balances: Balances) -> AbsState {
    AbsState { bids: book.bids@, asks: book.asks@, bal: bal_of(balances) }
}

pub open spec fn abs_same(s: AbsState, side: OrderSide) -> Seq<Order> {
    match side {
        OrderSide::Buy => s.bids,
        OrderSide::Sell => s.asks,
    }
}

pub open spec fn abs_opposite(s: AbsState, side: OrderSide) -> Seq<Order> {
    match side {
        OrderSide::Buy => s.asks,
        OrderSide::Sell => s.bids,
    }
}

/// What one trade adds to the balance of `u` in `a` when it settles: the
/// buying side gains the size in base units, the selling side gains
/// `size * price` in quote units.
pub open spec fn spec_trade_delta(c: Config, t: Trade, u: UserId, a: AssetId) -> int {
    (if u == spec_buy_user(t) && a == spec_market(c, t.market_id).base_asset_id {
        t.size as int
    } else {
        0
    }) + (if u == spec_sell_user(t) && a == spec_market(c, t.market_id).quote_asset_id {
        (t.price as int) * (t.size as int)
    } else {
        0
    })
}

/// What a list of trades adds to a balance when every one settles.
pub open spec fn spec_trades_delta(c: Config, ts: Seq<Trade>, u: UserId, a: AssetId) -> int
    decreases ts.len(),
{
    if ts.len() == 0 {
        0
    } else {
        spec_trade_delta(c, ts[0], u, a) + spec_trades_delta(c, ts.drop_first(), u, a)
    }
}

/// Every trade of the list names a known market.
pub open spec fn spec_trades_markets_known(c: Config, ts: Seq<Trade>) -> bool {
    forall|k: int| 0 <= k < ts.len() ==> spec_market_known(c, (#[trigger] ts[k]).market_id)
}

/// Every trade's size and value fit the amount type.
pub open spec fn spec_trades_sizes_fit(ts: Seq<Trade>) -> bool {
    forall|k: int| 0 <= k < ts.len() ==> (#[trigger] ts[k]).size as int <= i64::MAX as int && (
    ts[k].price as int) * (ts[k].size as int) <= i64::MAX as int
}

/// The balance of key `k` after the taker's collateral is debited.
pub open spec fn spec_debited(c: Config, s: AbsState, o: Order, k: (UserId, AssetId)) -> int {
    s.bal[k] - (if k == (o.user_id, spec_reserve_asset(c, o)) {
        spec_requirement(o)
    } else {
        0
    })
}

/// Settling the whole trade list stays within the amount type: since every
/// settlement only credits, it suffices that each credited key fits after
/// all trades.
pub open spec fn spec_settles_fit(c: Config, s: AbsState, o: Order, ts: Seq<Trade>) -> bool {
    forall|k: int| 0 <= k < ts.len() ==> {
        let t = #[trigger] ts[k];
        let k1 = (spec_buy_user(t), spec_market(c, t.market_id).base_asset_id);
        let k2 = (spec_sell_user(t), spec_market(c, t.market_id).quote_asset_id);
        &&& spec_debited(c, s, o, k1) + spec_trades_delta(c, ts, k1.0, k1.1) <= i64::MAX as int
        &&& spec_debited(c, s, o, k2) + spec_trades_delta(c, ts, k2.0, k2.1) <= i64::MAX as int
    }
}

/// The transition of an `AdjustBalance` command: an unconditional addition,
/// applied only when the sum stays representable.
pub open spec fn spec_adjust_abs(s: AbsState, user_id: UserId, asset_id: AssetId, change: i64) -> (
    AbsState,
    Result<(), EngineError>,
) {
    let v = s.bal[(user_id, asset_id)];
    if i64::MIN <= v + change <= i64::MAX {
        (AbsState { bal: s.bal.insert((user_id, asset_id), v + change), ..s }, Ok(()))
    } else {
        (s, Err(EngineError::AmountOverflow))
    }
}

/// The transition of a `CancelOrder` command: the first order carrying the
/// id, bids searched first, leaves the book, and its remaining requirement
/// is refunded; any failure leaves the state unchanged.
pub open spec fn spec_cancel_abs(c: Config, s: AbsState, order_id: u64) -> (
    AbsState,
    Result<(), EngineError>,
) {
    let bi = spec_find_order(s.bids, order_id);
    let ai = spec_find_order(s.asks, order_id);
    if bi < 0 && ai < 0 {
        (s, Err(EngineError::OrderNotFound))
    } else {
        let o = if bi >= 0 {
            s.bids[bi]
        } else {
            s.asks[ai]
        };
        if !spec_market_known(c, o.market_id) {
            (s, Err(EngineError::UnknownMarket))
        } else if spec_requirement(o) > i64::MAX as int {
            (s, Err(EngineError::AmountOverflow))
        } else if s.bal[(o.user_id, spec_reserve_asset(c, o))] + spec_requirement(o)
            > i64::MAX as int {
            (s, Err(EngineError::AmountOverflow))
        } else {
            let k = (o.user_id, spec_reserve_asset(c, o));
            (
                AbsState {
                    bids: if bi >= 0 {
                        s.bids.remove(bi)
                    } else {
                        s.bids
                    },
                    asks: if bi >= 0 {
                        s.asks
                    } else {
                        s.asks.remove(ai)
                    },
                    bal: s.bal.insert(k, s.bal[k] + spec_requirement(o)),
                },
                Ok(()),
            )
        }
    }
}

/// The transition of a `CreateOrder` command: debit the reserve, match
/// against the opposite queue, let the remainder rest, settle every fill;
/// any failure leaves the state unchanged.
pub open spec fn spec_create_abs(c: Config, s: AbsState, o: Order) -> (
    AbsState,
    Result<(), EngineError>,
) {
    if !spec_market_known(c, o.market_id) {
        (s, Err(EngineError::UnknownMarket))
    } else if o.remaining > o.size {
        (s, Err(EngineError::InvalidOrder))
    } else if spec_requirement(o) > i64::MAX as int {
        (s, Err(EngineError::AmountOverflow))
    } else if spec_debited(c, s, o, (o.user_id, spec_reserve_asset(c, o))) < i64::MIN as int {
        (s, Err(EngineError::AmountOverflow))
    } else {
        let m = spec_match(abs_opposite(s, o.side), o);
        if !spec_trades_markets_known(c, m.trades) {
            (s, Err(EngineError::UnknownMarket))
        } else if !spec_trades_sizes_fit(m.trades) {
            (s, Err(EngineError::AmountOverflow))
        } else if !spec_settles_fit(c, s, o, m.trades) {
            (s, Err(EngineError::AmountOverflow))
        } else {
            let same1 = if m.taker.remaining > 0 {
                spec_insert_order(o.side, abs_same(s, o.side), m.taker)
            } else {
                abs_same(s, o.side)
            };
            (
                AbsState {
                    bids: match o.side {
                        OrderSide::Buy => same1,
                        OrderSide::Sell => m.opposite,
                    },
                    asks: match o.side {
                        OrderSide::Buy => m.opposite,
                        OrderSide::Sell => same1,
                    },
                    bal: Map::total(
                        |k: (UserId, AssetId)| spec_debited(c, s, o, k) + spec_trades_delta(
                            c,
                            m.trades,
                            k.0,
                            k.1,
                        ),
                    ),
                },
                Ok(()),
            )
        }
    }
}

/// The engine's transition function: what one command does to the
/// observable state, and with which result.
pub open spec fn spec_apply_abs(c: Config, s: AbsState, p: MessagePayload) -> (
    AbsState,
    Result<(), EngineError>,
) {
    match p {
        MessagePayload::CreateOrder(o) => spec_create_abs(c, s, o),
        MessagePayload::CancelOrder { order_id } => spec_cancel_abs(c, s, order_id),
        MessagePayload::AdjustBalance { user_id, asset_id, change } => spec_adjust_abs(
            s,
            user_id,
            asset_id,
            change,
        ),
    }
}

/// Replaying stamped commands: each must carry the next sequence number,
/// each applies through the engine's transition function, and the first
/// gap or failed command stops the replay there.
pub open spec fn spec_replay_abs(c: Config, s: AbsState, seq: u64, msgs: Seq<Message>) -> (
    AbsState,
    u64,
    Result<(), EngineError>,
)
    decreases msgs.len(),
{
    if msgs.len() == 0 {
        (s, seq, Ok(()))
    } else if msgs[0].sequence != seq + 1 {
        (s, seq, Err(EngineError::SequenceGap))
    } else {
        let step = spec_apply_abs(c, s, msgs[0].payload);
        if step.1 is Err {
            (step.0, (seq + 1) as u64, step.1)
        } else {
            spec_replay_abs(c, step.0, (seq + 1) as u64, msgs.drop_first())
        }
    }
}

/// Replay determinism: the state a replay reaches is a function of the
/// configuration, the starting state and the journal alone — no clock,
/// randomness or iteration order enters, so two replays of the same
/// journal from equal states end equal.
pub proof fn lemma_replay_deterministic(
    c: Config,
    s1: AbsState,
    s2: AbsState,
    seq: u64,
    msgs: Seq<Message>,
)
    requires
        s1 == s2,
    ensures
        spec_replay_abs(c, s1, seq, msgs) == spec_replay_abs(c, s2, seq, msgs),
{
}

proof fn lemma_trades_delta_push(c: Config, ts: Seq<Trade>, t: Trade, u: UserId, a: AssetId)
    ensures
        spec_trades_delta(c, ts.push(t), u, a) == spec_trades_delta(c, ts, u, a)
            + spec_trade_delta(c, t, u, a),
    decreases ts.len(),
{
    if ts.len() == 0 {
        assert(ts.push(t).drop_first() =~= Seq::<Trade>::empty());
        assert(ts.push(t)[0] == t);
        assert(spec_trades_delta(c, Seq::<Trade>::empty(), u, a) == 0);
        assert(spec_trades_delta(c, ts, u, a) == 0);
    } else {
        assert(ts.push(t).drop_first() =~= ts.drop_first().push(t));
        assert(ts.push(t)[0] == ts[0]);
        lemma_trades_delta_push(c, ts.drop_first(), t, u, a);
    }
}

proof fn lemma_trade_delta_nonneg(c: Config, t: Trade, u: UserId, a: AssetId)
    ensures
        spec_trade_delta(c, t, u, a) >= 0,
        (t.price as int) * (t.size as int) >= 0,
{
    assert((t.price as int) * (t.size as int) >= 0) by (nonlinear_arith)
        requires
            t.price >= 0,
            t.size >= 0,
    ;
}

proof fn lemma_trades_delta_nonneg(c: Config, ts: Seq<Trade>, u: UserId, a: AssetId)
    ensures
        spec_trades_delta(c, ts, u, a) >= 0,
    decreases ts.len(),
{
    if ts.len() == 0 {
    } else {
        lemma_trade_delta_nonneg(c, ts[0], u, a);
        lemma_trades_delta_nonneg(c, ts.drop_first(), u, a);
    }
}

/// A trade list's delta splits at any index into the prefix, the trade
/// there, and the suffix.
proof fn lemma_trades_delta_split(c: Config, ts: Seq<Trade>, i: int, u: UserId, a: AssetId)
    requires
        0 <= i < ts.len(),
    ensures
        spec_trades_delta(c, ts, u, a) == spec_trades_delta(c, ts.take(i), u, a)
            + spec_trade_delta(c, ts[i], u, a) + spec_trades_delta(c, ts.skip(i + 1), u, a),
    decreases i,
{
    if i == 0 {
        assert(ts.take(0) =~= Seq::<Trade>::empty());
        assert(spec_trades_delta(c, Seq::<Trade>::empty(), u, a) == 0);
        assert(ts.skip(1) =~= ts.drop_first());
    } else {
        lemma_trades_delta_split(c, ts.drop_first(), i - 1, u, a);
        assert(ts.drop_first().take(i - 1) =~= ts.take(i).drop_first());
        assert(ts.drop_first()[i - 1] == ts[i]);
        assert(ts.drop_first().skip(i) =~= ts.skip(i + 1));
        assert(ts.take(i)[0] == ts[0]);
        assert(spec_trades_delta(c, ts.take(i), u, a) == spec_trade_delta(c, ts[0], u, a)
            + spec_trades_delta(c, ts.take(i).drop_first(), u, a));
    }
}

/// The delta of a prefix together with the trade that follows never
/// exceeds the delta of the whole list.
proof fn lemma_trades_delta_prefix_le(c: Config, ts: Seq<Trade>, i: int, u: UserId, a: AssetId)
    requires
        0 <= i < ts.len(),
    ensures
        spec_trades_delta(c, ts.take(i), u, a) + spec_trade_delta(c, ts[i], u, a)
            <= spec_trades_delta(c, ts, u, a),
        spec_trades_delta(c, ts.take(i), u, a) <= spec_trades_delta(c, ts, u, a),
{
    lemma_trades_delta_split(c, ts, i, u, a);
    lemma_trades_delta_nonneg(c, ts.skip(i + 1), u, a);
    lemma_trade_delta_nonneg(c, ts[i], u, a);
}


impl<W: JournalWriter> SuezEngine<W> {
    /// The state every engine operation preserves: a well-formed book and
    /// uniquely keyed balances.
    pub open spec fn wf(self) -> bool {
        &&& self.book.well_formed()
        &&& self.balances.wf()
    }

    /// Whether validation admits the command: an order must name a known
    /// market, be fresh (nonzero, entirely unfilled), and be covered by
    /// the submitter's reserve balance.  Other commands always pass.
    pub open spec fn spec_validate(self, message: Message) -> Result<(), EngineError> {
        match message.payload {
            MessagePayload::CreateOrder(o) => {
                if !spec_market_known(self.balances.config, o.market_id) {
                    Err(EngineError::UnknownMarket)
                } else if o.size == 0 || o.remaining != o.size {
                    Err(EngineError::InvalidOrder)
                } else if self.balances.spec_balance(
                    o.user_id,
                    spec_reserve_asset(self.balances.config, o),
                ) < spec_requirement(o) {
                    Err(EngineError::InsufficientFunds)
                } else {
                    Ok(())
                }
            },
            _ => Ok(()),
        }
    }

    /// Read-only pre-trade validation; the engine's state does not move.
    pub fn validate(&self, message: &Message) -> (r: Result<(), EngineError>)
        ensures
            r == self.spec_validate(*message),
    {
        match message.payload {
            MessagePayload::CreateOrder(order) => {
                if self.balances.config.find_market(order.market_id).is_none() {
                    return Err(EngineError::UnknownMarket);
                }
                if order.size == 0 || order.remaining != order.size {
                    return Err(EngineError::InvalidOrder);
                }
                if !self.balances.user_can_afford_order(&order) {
                    return Err(EngineError::InsufficientFunds);
                }
                Ok(())
            },
            _ => Ok(()),
        }
    }
}

/// Sums what the trade list adds to one balance, stopping once the sum can
/// no longer matter: any delta beyond the whole amount range fails every
/// fit test.
fn trades_delta_capped(config: &Config, trades: &Vec<Trade>, u: UserId, a: AssetId) -> (r: Option<
    i128,
>)
    requires
        spec_trades_markets_known(*config, trades@),
        spec_trades_sizes_fit(trades@),
    ensures
        match r {
            Some(d) => d as int == spec_trades_delta(*config, trades@, u, a) && 0 <= d
                <= 0x1_0000_0000_0000_0000i128,
            None => spec_trades_delta(*config, trades@, u, a) > 0x1_0000_0000_0000_0000i128 as int,
        },
{
    let mut acc: i128 = 0;
    let mut i: usize = 0;
    proof {
        assert(trades@.take(0) =~= Seq::<Trade>::empty());
    }
    while i < trades.len()
        invariant
            i <= trades@.len(),
            spec_trades_markets_known(*config, trades@),
            spec_trades_sizes_fit(trades@),
            0 <= acc <= 0x1_0000_0000_0000_0000i128,
            acc as int == spec_trades_delta(*config, trades@.take(i as int), u, a),
        decreases trades@.len() - i,
    {
        let t = trades[i];
        let index = match config.find_market(t.market_id) {
            Some(ix) => ix,
            None => {
                proof {
                    assert(false);
                }
                0
            },
        };
        let base_asset_id = config.markets[index].base_asset_id;
        let quote_asset_id = config.markets[index].quote_asset_id;
        let (buy_user_id, sell_user_id) = match t.side {
            OrderSide::Buy => (t.maker_user_id, t.taker_user_id),
            OrderSide::Sell => (t.taker_user_id, t.maker_user_id),
        };
        proof {
            assert((t.price as int) * (t.size as int) <= (u64::MAX as int) * (u64::MAX as int))
                by (nonlinear_arith)
                requires
                    t.price <= u64::MAX,
                    t.size <= u64::MAX,
            ;
        }
        let total_wide: u128 = (t.price as u128) * (t.size as u128);
        let mut d: i128 = 0;
        if u == buy_user_id && a == base_asset_id {
            d = d + t.size as i128;
        }
        if u == sell_user_id && a == quote_asset_id {
            d = d + total_wide as i128;
        }
        proof {
            assert(d as int == spec_trade_delta(*config, t, u, a));
        }
        acc = acc + d;
        i = i + 1;
        proof {
            assert(trades@.take(i as int) =~= trades@.take(i as int - 1).push(t));
            lemma_trades_delta_push(*config, trades@.take(i as int - 1), t, u, a);
        }
        if acc > 0x1_0000_0000_0000_0000i128 {
            proof {
                lemma_trades_delta_prefix_le(*config, trades@, i as int - 1, u, a);
            }
            return None;
        }
        proof {
            lemma_trades_delta_nonneg(*config, trades@.take(i as int), u, a);
        }
    }
    proof {
        assert(trades@.take(trades@.len() as int) =~= trades@);
    }
    Some(acc)
}

impl<W: JournalWriter> SuezEngine<W> {
    /// Settles every trade of a fill in emission order.  The caller has
    /// checked that every settlement fits, so none can fail.
    fn settle_all(&mut self, trades: &Vec<Trade>)
        requires
            old(self).balances.wf(),
            spec_trades_markets_known(old(self).balances.config, trades@),
            spec_trades_sizes_fit(trades@),
            forall|k: int| 0 <= k < trades@.len() ==> {
                let t = #[trigger] trades@[k];
                let c = old(self).balances.config;
                let k1 = (spec_buy_user(t), spec_market(c, t.market_id).base_asset_id);
                let k2 = (spec_sell_user(t), spec_market(c, t.market_id).quote_asset_id);
                &&& old(self).balances.spec_balance(k1.0, k1.1) + spec_trades_delta(
                    c,
                    trades@,
                    k1.0,
                    k1.1,
                ) <= i64::MAX as int
                &&& old(self).balances.spec_balance(k2.0, k2.1) + spec_trades_delta(
                    c,
                    trades@,
                    k2.0,
                    k2.1,
                ) <= i64::MAX as int
            },
        ensures
            final(self).balances.wf(),
            final(self).balances.config == old(self).balances.config,
            final(self).book == old(self).book,
            final(self).sequencer == old(self).sequencer,
            final(self).journaler == old(self).journaler,
            final(self).journal == old(self).journal,
            forall|u: UserId, a: AssetId|
                #![trigger final(self).balances.spec_balance(u, a)]
                final(self).balances.spec_balance(u, a) == old(self).balances.spec_balance(u, a)
                    + spec_trades_delta(old(self).balances.config, trades@, u, a),
    {
        let ghost c = self.balances.config;
        let ghost bal0 = self.balances;
        let mut i: usize = 0;
        proof {
            assert(trades@.take(0) =~= Seq::<Trade>::empty());
        }
        while i < trades.len()
            invariant
                i <= trades@.len(),
                self.balances.wf(),
                self.balances.config == c,
                self.book == old(self).book,
                self.sequencer == old(self).sequencer,
                self.journaler == old(self).journaler,
                self.journal == old(self).journal,
                bal0 == old(self).balances,
                c == bal0.config,
                spec_trades_markets_known(c, trades@),
                spec_trades_sizes_fit(trades@),
                forall|k: int| 0 <= k < trades@.len() ==> {
                    let t = #[trigger] trades@[k];
                    let k1 = (spec_buy_user(t), spec_market(c, t.market_id).base_asset_id);
                    let k2 = (spec_sell_user(t), spec_market(c, t.market_id).quote_asset_id);
                    &&& bal0.spec_balance(k1.0, k1.1) + spec_trades_delta(c, trades@, k1.0, k1.1)
                        <= i64::MAX as int
                    &&& bal0.spec_balance(k2.0, k2.1) + spec_trades_delta(c, trades@, k2.0, k2.1)
                        <= i64::MAX as int
                },
                forall|u: UserId, a: AssetId|
                    #![trigger self.balances.spec_balance(u, a)]
                    self.balances.spec_balance(u, a) == bal0.spec_balance(u, a)
                        + spec_trades_delta(c, trades@.take(i as int), u, a),
            decreases trades@.len() - i,
        {
            let t = trades[i];
            let index = match self.balances.config.find_market(t.market_id) {
                Some(ix) => ix,
                None => {
                    proof {
                        assert(false);
                    }
                    0
                },
            };
            let base_asset_id = self.balances.config.markets[index].base_asset_id;
            let quote_asset_id = self.balances.config.markets[index].quote_asset_id;
            let (buy_user_id, sell_user_id) = match t.side {
                OrderSide::Buy => (t.maker_user_id, t.taker_user_id),
                OrderSide::Sell => (t.taker_user_id, t.maker_user_id),
            };
            proof {
                assert((t.price as int) * (t.size as int) <= (u64::MAX as int) * (u64::MAX as int))
                    by (nonlinear_arith)
                    requires
                        t.price <= u64::MAX,
                        t.size <= u64::MAX,
                ;
            }
            let total_wide: u128 = (t.price as u128) * (t.size as u128);
            let total: i64 = total_wide as i64;
            proof {
                let k1 = (spec_buy_user(t), spec_market(c, t.market_id).base_asset_id);
                let k2 = (spec_sell_user(t), spec_market(c, t.market_id).quote_asset_id);
                lemma_trades_delta_prefix_le(c, trades@, i as int, k1.0, k1.1);
                lemma_trades_delta_prefix_le(c, trades@, i as int, k2.0, k2.1);
                lemma_trade_delta_nonneg(c, t, k1.0, k1.1);
                lemma_trade_delta_nonneg(c, t, k2.0, k2.1);
                lemma_trades_delta_nonneg(c, trades@.take(i as int), k1.0, k1.1);
                lemma_trades_delta_nonneg(c, trades@.take(i as int), k2.0, k2.1);
                lemma_balance_in_range(self.balances.entries@, k1.0, k1.1);
                lemma_balance_in_range(self.balances.entries@, k2.0, k2.1);
                assert(spec_trade_delta(c, t, k1.0, k1.1) >= t.size as int);
                assert(spec_trade_delta(c, t, k2.0, k2.1) >= (if k2 == k1 {
                    t.size as int
                } else {
                    0
                }) + (t.price as int) * (t.size as int));
            }
            let ghost pre = self.balances;
            self.balances.settle(&t);
            i = i + 1;
            proof {
                assert(trades@.take(i as int) =~= trades@.take(i as int - 1).push(t));
                assert forall|u: UserId, a: AssetId|
                    #[trigger] self.balances.spec_balance(u, a) == bal0.spec_balance(u, a)
                        + spec_trades_delta(c, trades@.take(i as int), u, a) by {
                    lemma_trades_delta_push(c, trades@.take(i as int - 1), t, u, a);
                    assert(pre.spec_balance(u, a) == bal0.spec_balance(u, a) + spec_trades_delta(
                        c,
                        trades@.take(i as int - 1),
                        u,
                        a,
                    ));
                }
            }
        }
        proof {
            assert(trades@.take(trades@.len() as int) =~= trades@);
        }
    }
}


/// A total balance map equals `bal_of` when it agrees pointwise.
proof fn lemma_bal_of_eq(b: Balances, m: Map<(UserId, AssetId), int>)
    requires
        forall|k: (UserId, AssetId)| #[trigger] m.dom().contains(k),
        forall|k: (UserId, AssetId)| #[trigger] m[k] == b.spec_balance(k.0, k.1),
    ensures
        bal_of(b) == m,
{
    broadcast use vstd::set::group_set_axioms;

    assert forall|k: (UserId, AssetId)| #[trigger] bal_of(b)[k] == m[k] by {
        assert(Set::<(UserId, AssetId)>::full().contains(k));
        assert(bal_of(b)[k] == b.spec_balance(k.0, k.1));
    }
    assert(bal_of(b).dom() =~= m.dom()) by {
        assert forall|k: (UserId, AssetId)| #[trigger] bal_of(b).dom().contains(k) by {
            assert(Set::<(UserId, AssetId)>::full().contains(k));
        }
    }
    assert(bal_of(b) =~= m);
}

impl<W: JournalWriter> SuezEngine<W> {
    /// Applies one command to the book and the balances: the shared path of
    /// live traffic and replay.  The observable state moves exactly as
    /// `spec_apply_abs` says, and atomically: every reported command leaves
    /// the engine untouched.
    #[verifier::loop_isolation(false)]
    pub fn apply_message(&mut self, message: &Message) -> (r: Result<(), EngineError>)
        requires
            old(self).wf(),
        ensures
            final(self).wf(),
            final(self).balances.config == old(self).balances.config,
            final(self).sequencer == old(self).sequencer,
            final(self).journaler == old(self).journaler,
            final(self).journal == old(self).journal,
            ({
                let step = spec_apply_abs(
                    old(self).balances.config,
                    abs_of(old(self).book, old(self).balances),
                    message.payload,
                );
                &&& abs_of(final(self).book, final(self).balances) == step.0
                &&& r == step.1
            }),
            r is Err ==> *final(self) == *old(self),
    {
        broadcast use vstd::set::group_set_axioms;

        let ghost c = self.balances.config;
        let ghost s0 = abs_of(self.book, self.balances);
        proof {
            assert forall|u: UserId, a: AssetId| #[trigger] s0.bal[(u, a)]
                == self.balances.spec_balance(u, a) by {
                assert(Set::<(UserId, AssetId)>::full().contains((u, a)));
            }
        }
        match message.payload {
            MessagePayload::AdjustBalance { user_id, asset_id, change } => {
                proof {
                    lemma_balance_in_range(self.balances.entries@, user_id, asset_id);
                }
                let balance = self.balances.get_balance(user_id, asset_id);
                let fits = if change >= 0 {
                    balance <= i64::MAX - change
                } else {
                    balance >= i64::MIN - change
                };
                if !fits {
                    return Err(EngineError::AmountOverflow);
                }
                self.balances.adjust_balance(user_id, asset_id, change);
                proof {
                    let target = s0.bal.insert(
                        (user_id, asset_id),
                        s0.bal[(user_id, asset_id)] + change,
                    );
                    assert forall|k: (UserId, AssetId)| #[trigger] target.dom().contains(k) by {
                        assert(Set::<(UserId, AssetId)>::full().contains(k));
                    }
                    assert forall|k: (UserId, AssetId)| #[trigger] target[k]
                        == self.balances.spec_balance(k.0, k.1) by {
                        assert((k.0, k.1) == k);
                        if k != (user_id, asset_id) {
                            assert(Set::<(UserId, AssetId)>::full().contains(k));
                        }
                    }
                    lemma_bal_of_eq(self.balances, target);
                    assert(abs_of(self.book, self.balances) =~= spec_adjust_abs(
                        s0,
                        user_id,
                        asset_id,
                        change,
                    ).0);
                }
                Ok(())
            },
            MessagePayload::CancelOrder { order_id } => {
                let order = match self.book.peek_order(order_id) {
                    None => {
                        return Err(EngineError::OrderNotFound);
                    },
                    Some(o) => o,
                };
                if self.balances.config.find_market(order.market_id).is_none() {
                    return Err(EngineError::UnknownMarket);
                }
                proof {
                    assert((order.remaining as int) * (order.price as int) <= (u64::MAX as int) * (
                    u64::MAX as int)) by (nonlinear_arith)
                        requires
                            order.remaining <= u64::MAX,
                            order.price <= u64::MAX,
                    ;
                }
                let requirement_wide: u128 = match order.side {
                    OrderSide::Buy => (order.remaining as u128) * (order.price as u128),
                    OrderSide::Sell => order.remaining as u128,
                };
                if requirement_wide > i64::MAX as u128 {
                    return Err(EngineError::AmountOverflow);
                }
                let requirement = requirement_wide as i64;
                let reserve_asset = match self.balances.config.find_market(order.market_id) {
                    Some(index) => {
                        let market = &self.balances.config.markets[index];
                        match order.side {
                            OrderSide::Buy => market.quote_asset_id,
                            OrderSide::Sell => market.base_asset_id,
                        }
                    },
                    None => {
                        proof {
                            assert(false);
                        }
                        0
                    },
                };
                proof {
                    lemma_balance_in_range(self.balances.entries@, order.user_id, reserve_asset);
                }
                let balance = self.balances.get_balance(order.user_id, reserve_asset);
                if balance > i64::MAX - requirement {
                    return Err(EngineError::AmountOverflow);
                }
                let removed = match self.book.cancel_order(order_id) {
                    Ok(o2) => o2,
                    Err(()) => {
                        proof {
                            assert(false);
                        }
                        order
                    },
                };
                proof {
                    assert(removed == order);
                }
                self.balances.credit_for_canceled_order(&removed);
                proof {
                    let k = (order.user_id, spec_reserve_asset(c, order));
                    let target = s0.bal.insert(k, s0.bal[k] + spec_requirement(order));
                    assert forall|kk: (UserId, AssetId)| #[trigger] target.dom().contains(kk) by {
                        assert(Set::<(UserId, AssetId)>::full().contains(kk));
                    }
                    assert forall|kk: (UserId, AssetId)| #[trigger] target[kk]
                        == self.balances.spec_balance(kk.0, kk.1) by {
                        assert((kk.0, kk.1) == kk);
                        if kk != k {
                            assert(Set::<(UserId, AssetId)>::full().contains(kk));
                        }
                    }
                    lemma_bal_of_eq(self.balances, target);
                    assert(abs_of(self.book, self.balances) =~= spec_cancel_abs(c, s0, order_id).0);
                }
                Ok(())
            },
            MessagePayload::CreateOrder(order) => {
                if self.balances.config.find_market(order.market_id).is_none() {
                    return Err(EngineError::UnknownMarket);
                }
                if order.remaining > order.size {
                    return Err(EngineError::InvalidOrder);
                }
                proof {
                    assert((order.remaining as int) * (order.price as int) <= (u64::MAX as int) * (
                    u64::MAX as int)) by (nonlinear_arith)
                        requires
                            order.remaining <= u64::MAX,
                            order.price <= u64::MAX,
                    ;
                }
                let requirement_wide: u128 = match order.side {
                    OrderSide::Buy => (order.remaining as u128) * (order.price as u128),
                    OrderSide::Sell => order.remaining as u128,
                };
                if requirement_wide > i64::MAX as u128 {
                    return Err(EngineError::AmountOverflow);
                }
                let requirement = requirement_wide as i64;
                let reserve_asset = match self.balances.config.find_market(order.market_id) {
                    Some(index) => {
                        let market = &self.balances.config.markets[index];
                        match order.side {
                            OrderSide::Buy => market.quote_asset_id,
                            OrderSide::Sell => market.base_asset_id,
                        }
                    },
                    None => {
                        proof {
                            assert(false);
                        }
                        0
                    },
                };
                proof {
                    lemma_balance_in_range(self.balances.entries@, order.user_id, reserve_asset);
                }
                let reserve_balance = self.balances.get_balance(order.user_id, reserve_asset);
                if (reserve_balance as i128) - (requirement as i128) < i64::MIN as i128 {
                    return Err(EngineError::AmountOverflow);
                }
                let ghost m = spec_match(abs_opposite(s0, order.side), order);
                let trades = match order.side {
                    OrderSide::Buy => match_trades(&self.book.asks, order),
                    OrderSide::Sell => match_trades(&self.book.bids, order),
                };
                proof {
                    assert(trades@ == m.trades);
                }
                let mut k: usize = 0;
                while k < trades.len()
                    invariant
                        k <= trades@.len(),
                        trades@ == m.trades,
                        c == self.balances.config,
                        forall|j: int| 0 <= j < k ==> spec_market_known(
                            c,
                            (#[trigger] trades@[j]).market_id,
                        ),
                    decreases trades@.len() - k,
                {
                    if self.balances.config.find_market(trades[k].market_id).is_none() {
                        return Err(EngineError::UnknownMarket);
                    }
                    k = k + 1;
                }
                let mut k: usize = 0;
                while k < trades.len()
                    invariant
                        k <= trades@.len(),
                        trades@ == m.trades,
                        forall|j: int| 0 <= j < k ==> (#[trigger] trades@[j]).size as int
                            <= i64::MAX as int && (trades@[j].price as int) * (
                        trades@[j].size as int) <= i64::MAX as int,
                    decreases trades@.len() - k,
                {
                    let t = trades[k];
                    if t.size > i64::MAX as u64 {
                        return Err(EngineError::AmountOverflow);
                    }
                    proof {
                        assert((t.price as int) * (t.size as int) <= (u64::MAX as int) * (
                        u64::MAX as int)) by (nonlinear_arith)
                            requires
                                t.price <= u64::MAX,
                                t.size <= u64::MAX,
                        ;
                    }
                    let total_wide: u128 = (t.price as u128) * (t.size as u128);
                    if total_wide > i64::MAX as u128 {
                        return Err(EngineError::AmountOverflow);
                    }
                    k = k + 1;
                }
                let mut k: usize = 0;
                while k < trades.len()
                    invariant
                        k <= trades@.len(),
                        trades@ == m.trades,
                        c == self.balances.config,
                        s0 == abs_of(self.book, self.balances),
                        spec_trades_markets_known(c, trades@),
                        spec_trades_sizes_fit(trades@),
                        requirement as int == spec_requirement(order),
                        reserve_asset == spec_reserve_asset(c, order),
                        forall|u: UserId, a: AssetId| #[trigger] s0.bal[(u, a)]
                            == self.balances.spec_balance(u, a),
                        forall|j: int| 0 <= j < k ==> {
                            let t = #[trigger] trades@[j];
                            let k1 = (spec_buy_user(t), spec_market(c, t.market_id).base_asset_id);
                            let k2 = (
                                spec_sell_user(t),
                                spec_market(c, t.market_id).quote_asset_id,
                            );
                            &&& spec_debited(c, s0, order, k1) + spec_trades_delta(
                                c,
                                trades@,
                                k1.0,
                                k1.1,
                            ) <= i64::MAX as int
                            &&& spec_debited(c, s0, order, k2) + spec_trades_delta(
                                c,
                                trades@,
                                k2.0,
                                k2.1,
                            ) <= i64::MAX as int
                        },
                    decreases trades@.len() - k,
                {
                    let t = trades[k];
                    let index = match self.balances.config.find_market(t.market_id) {
                        Some(ix) => ix,
                        None => {
                            proof {
                                assert(false);
                            }
                            0
                        },
                    };
                    let base_asset_id = self.balances.config.markets[index].base_asset_id;
                    let quote_asset_id = self.balances.config.markets[index].quote_asset_id;
                    let (buy_user_id, sell_user_id) = match t.side {
                        OrderSide::Buy => (t.maker_user_id, t.taker_user_id),
                        OrderSide::Sell => (t.taker_user_id, t.maker_user_id),
                    };
                    proof {
                        lemma_balance_in_range(self.balances.entries@, buy_user_id, base_asset_id);
                        lemma_balance_in_range(
                            self.balances.entries@,
                            sell_user_id,
                            quote_asset_id,
                        );
                    }
                    let d1 = match trades_delta_capped(
                        &self.balances.config,
                        &trades,
                        buy_user_id,
                        base_asset_id,
                    ) {
                        None => {
                            return Err(EngineError::AmountOverflow);
                        },
                        Some(d) => d,
                    };
                    let bal1 = self.balances.get_balance(buy_user_id, base_asset_id);
                    let after1: i128 = (bal1 as i128) - (
                    if buy_user_id == order.user_id && base_asset_id == reserve_asset {
                        requirement as i128
                    } else {
                        0
                    });
                    if after1 + d1 > i64::MAX as i128 {
                        return Err(EngineError::AmountOverflow);
                    }
                    let d2 = match trades_delta_capped(
                        &self.balances.config,
                        &trades,
                        sell_user_id,
                        quote_asset_id,
                    ) {
                        None => {
                            return Err(EngineError::AmountOverflow);
                        },
                        Some(d) => d,
                    };
                    let bal2 = self.balances.get_balance(sell_user_id, quote_asset_id);
                    let after2: i128 = (bal2 as i128) - (
                    if sell_user_id == order.user_id && quote_asset_id == reserve_asset {
                        requirement as i128
                    } else {
                        0
                    });
                    if after2 + d2 > i64::MAX as i128 {
                        return Err(EngineError::AmountOverflow);
                    }
                    k = k + 1;
                }
                self.balances.debit_for_order(&order);
                let ghost debited = self.balances;
                proof {
                    assert forall|u: UserId, a: AssetId|
                        #[trigger] debited.spec_balance(u, a) == spec_debited(c, s0, order, (u, a))
                        by {
                        assert(s0.bal[(u, a)] == old(self).balances.spec_balance(u, a));
                    }
                }
                let trades_exec = self.book.execute_order(order);
                proof {
                    assert(trades_exec@ == m.trades);
                }
                self.settle_all(&trades_exec);
                proof {
                    let target = spec_create_abs(c, s0, order);
                    assert(target.1 == Ok::<(), EngineError>(()));
                    let goal = Map::total(
                        |kk: (UserId, AssetId)| spec_debited(c, s0, order, kk) + spec_trades_delta(
                            c,
                            m.trades,
                            kk.0,
                            kk.1,
                        ),
                    );
                    assert forall|kk: (UserId, AssetId)| #[trigger] goal.dom().contains(kk) by {
                        assert(Set::<(UserId, AssetId)>::full().contains(kk));
                    }
                    assert forall|kk: (UserId, AssetId)| #[trigger] goal[kk]
                        == self.balances.spec_balance(kk.0, kk.1) by {
                        assert(Set::<(UserId, AssetId)>::full().contains(kk));
                        assert((kk.0, kk.1) == kk);
                        assert(self.balances.spec_balance(kk.0, kk.1) == debited.spec_balance(
                            kk.0,
                            kk.1,
                        ) + spec_trades_delta(c, m.trades, kk.0, kk.1));
                    }
                    lemma_bal_of_eq(self.balances, goal);
                    assert(abs_of(self.book, self.balances) =~= target.0);
                }
                Ok(())
            },
        }
    }
}


impl<W: JournalWriter> SuezEngine<W> {
    /// The live path for one command: stamp the next sequence number,
    /// journal the stamped message, then apply it.  A gap in a pre-stamped
    /// message is rejected with nothing moved; a journal failure leaves the
    /// stamped sequence counted but unapplied and nothing recorded;
    /// otherwise exactly the stamped message was handed to the writer,
    /// stands appended to the engine's journal record, and the state moves
    /// by `spec_apply_abs`.
    pub fn process_message(&mut self, message: Message) -> (r: Result<(), EngineError>)
        requires
            old(self).wf(),
            old(self).sequencer.sequence < u64::MAX,
        ensures
            final(self).wf(),
            final(self).balances.config == old(self).balances.config,
            ({
                let gap = message.sequence != 0 && message.sequence != old(self).sequencer.sequence
                    + 1;
                let stamped = Message {
                    sequence: (old(self).sequencer.sequence + 1) as u64,
                    payload: message.payload,
                };
                let step = spec_apply_abs(
                    old(self).balances.config,
                    abs_of(old(self).book, old(self).balances),
                    message.payload,
                );
                &&& (gap <==> r == Err::<(), EngineError>(EngineError::SequenceGap))
                &&& (gap ==> *final(self) == *old(self))
                &&& (!gap ==> {
                    &&& final(self).sequencer.sequence == old(self).sequencer.sequence + 1
                    &&& ({
                        ||| {
                            &&& final(self).journal@ == old(self).journal@.push(stamped)
                            &&& abs_of(final(self).book, final(self).balances) == step.0
                            &&& r == step.1
                        }
                        ||| {
                            &&& r == Err::<(), EngineError>(EngineError::JournalIo)
                            &&& final(self).journal@ == old(self).journal@
                            &&& abs_of(final(self).book, final(self).balances) == abs_of(
                                old(self).book,
                                old(self).balances,
                            )
                            &&& final(self).book.bids@ == old(self).book.bids@
                            &&& final(self).book.asks@ == old(self).book.asks@
                            &&& final(self).balances == old(self).balances
                        }
                    })
                })
            }),
    {
        let mut message = message;
        if self.sequencer.apply(&mut message).is_err() {
            return Err(EngineError::SequenceGap);
        }
        if self.journaler.write(&message).is_err() {
            return Err(EngineError::JournalIo);
        }
        self.journal = Ghost(self.journal@.push(message));
        let r = self.apply_message(&message);
        proof {
            if r is Err {
                match r {
                    Err(e) => {
                        assert(e != EngineError::SequenceGap);
                    },
                    Ok(()) => {},
                }
            }
        }
        r
    }

    /// Replays already stamped commands, as read back from a journal,
    /// through the same application path as live traffic: no validation, no
    /// re-journaling.  The state, the sequence counter and the result are
    /// exactly `spec_replay_abs` of the starting state and the messages:
    /// each command must carry the next sequence number, and the first gap
    /// or failed command stops the replay with everything before it applied
    /// and nothing after it.
    pub fn replay_messages(&mut self, messages: &Vec<Message>) -> (r: Result<(), EngineError>)
        requires
            old(self).wf(),
        ensures
            final(self).wf(),
            final(self).balances.config == old(self).balances.config,
            final(self).journaler == old(self).journaler,
            final(self).journal == old(self).journal,
            ({
                let outcome = spec_replay_abs(
                    old(self).balances.config,
                    abs_of(old(self).book, old(self).balances),
                    old(self).sequencer.sequence,
                    messages@,
                );
                &&& abs_of(final(self).book, final(self).balances) == outcome.0
                &&& final(self).sequencer.sequence == outcome.1
                &&& r == outcome.2
            }),
            r is Ok ==> {
                &&& final(self).sequencer.sequence == old(self).sequencer.sequence
                    + messages@.len()
                &&& forall|i: int| 0 <= i < messages@.len() ==> (#[trigger] messages@[i]).sequence
                    == old(self).sequencer.sequence + i + 1
            },
    {
        let ghost c = self.balances.config;
        let ghost s0 = abs_of(self.book, self.balances);
        let ghost q0 = self.sequencer.sequence;
        let mut i: usize = 0;
        proof {
            assert(messages@.skip(0) =~= messages@);
        }
        while i < messages.len()
            invariant
                i <= messages@.len(),
                self.wf(),
                self.balances.config == c,
                self.journaler == old(self).journaler,
                self.journal == old(self).journal,
                c == old(self).balances.config,
                s0 == abs_of(old(self).book, old(self).balances),
                q0 == old(self).sequencer.sequence,
                forall|j: int| 0 <= j < i ==> (#[trigger] messages@[j]).sequence == q0 + j + 1,
                self.sequencer.sequence == q0 + i,
                spec_replay_abs(c, s0, q0, messages@) == spec_replay_abs(
                    c,
                    abs_of(self.book, self.balances),
                    self.sequencer.sequence,
                    messages@.skip(i as int),
                ),
            decreases messages@.len() - i,
        {
            let message = messages[i];
            proof {
                assert(messages@.skip(i as int)[0] == messages@[i as int]);
            }
            if self.sequencer.sequence == u64::MAX || message.sequence != self.sequencer.sequence
                + 1 {
                return Err(EngineError::SequenceGap);
            }
            self.sequencer.sequence = self.sequencer.sequence + 1;
            let applied = self.apply_message(&message);
            proof {
                assert(messages@.skip(i as int).drop_first() =~= messages@.skip(i as int + 1));
            }
            match applied {
                Err(e) => {
                    return Err(e);
                },
                Ok(()) => {},
            }
            i = i + 1;
        }
        proof {
            assert(messages@.skip(messages@.len() as int) =~= Seq::<Message>::empty());
        }
        Ok(())
    }
}

} // verus!
