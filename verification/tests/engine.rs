use suez::engine::{EngineError, SuezEngine, VecJournalWriter};
use suez::messages::{Message, MessagePayload};
use suez::utils::{Config, Order, OrderSide};

fn fresh_engine() -> SuezEngine<VecJournalWriter> {
    SuezEngine::new(Config::hardcoded(), VecJournalWriter::new())
}

fn adjust(user_id: u32, asset_id: u32, change: i64) -> Message {
    Message { sequence: 0, payload: MessagePayload::AdjustBalance { user_id, asset_id, change } }
}

fn create(order: Order) -> Message {
    Message { sequence: 0, payload: MessagePayload::CreateOrder(order) }
}

fn cancel(order_id: u64) -> Message {
    Message { sequence: 0, payload: MessagePayload::CancelOrder { order_id } }
}

#[test]
fn it_passes_scenario_1() {
    const ALICE_USER_ID: u32 = 1;
    const BOB_USER_ID: u32 = 2;
    const CAROL_USER_ID: u32 = 3;
    const BASE_ASSET_ID: u32 = 1;
    const QUOTE_ASSET_ID: u32 = 2;
    const MARKET_ID: u32 = 1;

    let mut engine = fresh_engine();

    engine.process_message(adjust(ALICE_USER_ID, BASE_ASSET_ID, 1000)).unwrap();
    engine.process_message(adjust(BOB_USER_ID, BASE_ASSET_ID, 1000)).unwrap();
    engine.process_message(adjust(BOB_USER_ID, QUOTE_ASSET_ID, 1)).unwrap();
    engine.process_message(adjust(CAROL_USER_ID, QUOTE_ASSET_ID, 35000)).unwrap();

    // Alice: Sell 200 @ 100
    engine
        .process_message(create(Order::new(1, ALICE_USER_ID, MARKET_ID, OrderSide::Sell, 100, 200)))
        .unwrap();
    // Bob: Sell 150 @ 100
    engine
        .process_message(create(Order::new(2, BOB_USER_ID, MARKET_ID, OrderSide::Sell, 100, 150)))
        .unwrap();
    // Carol: Buy 300 @ 110
    engine
        .process_message(create(Order::new(3, CAROL_USER_ID, MARKET_ID, OrderSide::Buy, 110, 300)))
        .unwrap();

    // Confirm book
    assert_eq!(engine.book.bids.len(), 0);
    assert_eq!(engine.book.asks.len(), 1);
    assert_eq!(engine.book.asks[0].price, 100);
    assert_eq!(engine.book.asks[0].size, 150);
    assert_eq!(engine.book.asks[0].remaining, 50);

    // Confirm balances
    assert_eq!(engine.balances.get_balance(ALICE_USER_ID, BASE_ASSET_ID), 1000 - 200);
    assert_eq!(engine.balances.get_balance(ALICE_USER_ID, QUOTE_ASSET_ID), 20000);
    assert_eq!(engine.balances.get_balance(BOB_USER_ID, BASE_ASSET_ID), 1000 - 150);
    assert_eq!(engine.balances.get_balance(BOB_USER_ID, QUOTE_ASSET_ID), 1 + 100 * 100);
    assert_eq!(engine.balances.get_balance(CAROL_USER_ID, BASE_ASSET_ID), 300);
    assert_eq!(engine.balances.get_balance(CAROL_USER_ID, QUOTE_ASSET_ID), 35000 - 33000);

    // Bob: Cancel remainder of #2
    engine.process_message(cancel(2)).unwrap();

    assert_eq!(engine.book.asks.len(), 0);
    assert_eq!(engine.balances.get_balance(BOB_USER_ID, BASE_ASSET_ID), 1000 - 150 + 50);
}

#[test]
fn it_fills_a_simple_crossing_pair() {
    // A sells 10 @ 100; B buys 10 @ 110.  One trade at the maker's price
    // of 100 for size 10; the price improvement stays reserved.
    let mut engine = fresh_engine();

    engine.process_message(adjust(1, 1, 1000)).unwrap();
    engine.process_message(adjust(2, 2, 20000)).unwrap();

    engine.process_message(create(Order::new(1, 1, 1, OrderSide::Sell, 100, 10))).unwrap();
    assert_eq!(engine.balances.get_balance(1, 1), 990);

    engine.process_message(create(Order::new(2, 2, 1, OrderSide::Buy, 110, 10))).unwrap();

    assert_eq!(engine.book.bids.len(), 0);
    assert_eq!(engine.book.asks.len(), 0);
    assert_eq!(engine.balances.get_balance(1, 1), 990);
    assert_eq!(engine.balances.get_balance(1, 2), 1000);
    assert_eq!(engine.balances.get_balance(2, 1), 10);
    assert_eq!(engine.balances.get_balance(2, 2), 20000 - 1100);
}

#[test]
fn it_rejects_orders_the_user_cannot_afford() {
    let mut engine = fresh_engine();
    engine.process_message(adjust(1, 2, 199)).unwrap();

    let order = Order::new(1, 1, 1, OrderSide::Buy, 10, 20);
    let message = create(order);
    assert_eq!(engine.validate(&message), Err(EngineError::InsufficientFunds));

    engine.process_message(adjust(1, 2, 1)).unwrap();
    assert_eq!(engine.validate(&message), Ok(()));
}

#[test]
fn it_rejects_empty_orders() {
    let mut engine = fresh_engine();
    let message = create(Order::new(1, 1, 1, OrderSide::Buy, 10, 0));
    assert_eq!(engine.validate(&message), Err(EngineError::InvalidOrder));

    let mut stale = Order::new(2, 1, 1, OrderSide::Buy, 10, 20);
    stale.remaining = 10;
    assert_eq!(engine.validate(&create(stale)), Err(EngineError::InvalidOrder));
}

#[test]
fn it_rejects_orders_for_unknown_markets() {
    let mut engine = fresh_engine();
    engine.process_message(adjust(1, 2, 1000)).unwrap();
    let message = create(Order::new(1, 1, 9, OrderSide::Buy, 10, 20));
    assert_eq!(engine.validate(&message), Err(EngineError::UnknownMarket));
    assert_eq!(engine.process_message(message), Err(EngineError::UnknownMarket));
}

#[test]
fn it_reports_cancel_of_unknown_order() {
    let mut engine = fresh_engine();
    assert_eq!(engine.process_message(cancel(42)), Err(EngineError::OrderNotFound));
}

#[test]
fn it_stamps_contiguous_sequence_numbers() {
    let mut engine = fresh_engine();
    engine.process_message(adjust(1, 1, 5)).unwrap();
    engine.process_message(adjust(1, 1, 5)).unwrap();
    engine.process_message(adjust(2, 2, 5)).unwrap();

    let journal = &engine.journaler.messages;
    assert_eq!(journal.len(), 3);
    for (i, message) in journal.iter().enumerate() {
        assert_eq!(message.sequence, (i + 1) as u64);
    }
    assert_eq!(engine.sequencer.sequence, 3);
}

#[test]
fn it_replays_to_an_identical_state() {
    // Run a partial-fill-and-cancel session against one engine, then feed
    // its journal to a fresh engine: books, balances and sequence agree.
    let mut live = fresh_engine();
    live.process_message(adjust(1, 1, 1000)).unwrap();
    live.process_message(adjust(2, 1, 1000)).unwrap();
    live.process_message(adjust(3, 2, 35000)).unwrap();
    live.process_message(create(Order::new(1, 1, 1, OrderSide::Sell, 100, 200))).unwrap();
    live.process_message(create(Order::new(2, 2, 1, OrderSide::Sell, 100, 150))).unwrap();
    live.process_message(create(Order::new(3, 3, 1, OrderSide::Buy, 110, 300))).unwrap();
    live.process_message(cancel(2)).unwrap();

    let mut restored = fresh_engine();
    restored.replay_messages(&live.journaler.messages).unwrap();

    assert_eq!(restored.sequencer.sequence, live.sequencer.sequence);
    assert_eq!(restored.book.bids, live.book.bids);
    assert_eq!(restored.book.asks, live.book.asks);
    assert_eq!(restored.balances.entries, live.balances.entries);
}

#[test]
fn it_aborts_replay_on_a_sequence_gap() {
    let mut live = fresh_engine();
    live.process_message(adjust(1, 1, 5)).unwrap();
    live.process_message(adjust(1, 1, 7)).unwrap();

    let mut journal = live.journaler.messages.clone();
    journal[1].sequence = 3;

    let mut restored = fresh_engine();
    assert_eq!(restored.replay_messages(&journal), Err(EngineError::SequenceGap));
    assert_eq!(restored.balances.get_balance(1, 1), 5);
}

#[test]
fn it_applies_nothing_when_a_command_fails() {
    // A command that cannot apply leaves every balance and the book as
    // they were: application is atomic per command.
    let mut engine = fresh_engine();
    engine.process_message(adjust(1, 1, i64::MAX)).unwrap();

    let overflowing = adjust(1, 1, 1);
    assert_eq!(engine.process_message(overflowing), Err(EngineError::AmountOverflow));
    assert_eq!(engine.balances.get_balance(1, 1), i64::MAX);

    // A cancel that finds its order but cannot refund it also applies
    // nothing: the order stays resting.  The seller's base balance was
    // topped back up to the maximum after the debit, so the refund of the
    // resting 10 units cannot be represented.
    engine.process_message(create(Order::new(7, 1, 1, OrderSide::Sell, 5, 10))).unwrap();
    engine.process_message(adjust(1, 1, 10)).unwrap();
    assert_eq!(engine.process_message(cancel(7)), Err(EngineError::AmountOverflow));
    assert_eq!(engine.book.asks.len(), 1);
    assert_eq!(engine.book.asks[0].id, 7);
    assert_eq!(engine.balances.get_balance(1, 1), i64::MAX);
}
