use suez::balances::Balances;
use suez::utils::{Config, Order, OrderSide, Trade};

#[test]
fn it_returns_zero_balance_for_unknown() {
    let balances = Balances::new(Config::hardcoded());
    let balance = balances.get_balance(123, 123);
    assert_eq!(balance, 0);
}

#[test]
fn it_can_adjust_from_unknown() {
    let mut balances = Balances::new(Config::hardcoded());
    balances.adjust_balance(1, 2, 100);
    balances.adjust_balance(2, 2, -50);

    assert_eq!(balances.get_balance(1, 2), 100);
    assert_eq!(balances.get_balance(2, 2), -50);
}

#[test]
fn it_debits_correct_amount_for_bid() {
    let mut balances = Balances::new(Config::hardcoded());
    balances.adjust_balance(1, 2, 1000);

    let order = Order::new(1, 1, 1, OrderSide::Buy, 10, 20);
    balances.debit_for_order(&order);

    assert_eq!(balances.get_balance(1, 2), 1000 - 10 * 20);
}

#[test]
fn it_debits_correct_amount_for_ask() {
    let mut balances = Balances::new(Config::hardcoded());
    balances.adjust_balance(1, 1, 1000);

    let order = Order::new(1, 1, 1, OrderSide::Sell, 10, 20);
    balances.debit_for_order(&order);

    assert_eq!(balances.get_balance(1, 1), 1000 - 20);
}

#[test]
fn it_settles_correctly_for_annihilation() {
    let mut balances = Balances::new(Config::hardcoded());
    const BUY_USER_ID: u32 = 101;
    const SELL_USER_ID: u32 = 102;
    const BASE_ASSET_ID: u32 = 1;
    const QUOTE_ASSET_ID: u32 = 2;

    balances.adjust_balance(BUY_USER_ID, BASE_ASSET_ID, 25);
    balances.adjust_balance(SELL_USER_ID, QUOTE_ASSET_ID, 30);

    let trade = Trade {
        price: 1000,
        size: 500,
        maker_order_id: 15,
        taker_order_id: 14,
        maker_user_id: BUY_USER_ID,
        taker_user_id: SELL_USER_ID,
        side: OrderSide::Buy,
        market_id: 1,
    };

    balances.settle(&trade);

    assert_eq!(balances.get_balance(BUY_USER_ID, BASE_ASSET_ID), 25 + 500);
    assert_eq!(balances.get_balance(SELL_USER_ID, QUOTE_ASSET_ID), 30 + 500 * 1000);
}

#[test]
fn it_affords_orders_only_up_to_balance() {
    let mut balances = Balances::new(Config::hardcoded());
    balances.adjust_balance(1, 2, 199);

    // A bid for 20 @ 10 needs 200 quote units; 199 is one short.
    let order = Order::new(1, 1, 1, OrderSide::Buy, 10, 20);
    assert!(!balances.user_can_afford_order(&order));

    balances.adjust_balance(1, 2, 1);
    assert!(balances.user_can_afford_order(&order));
}

#[test]
fn it_refunds_only_the_unfilled_remainder() {
    // Selling 200, partially filled down to 50: the cancel refund is 50
    // base units, so the user ends with the starting total less what the
    // fills delivered.
    let mut balances = Balances::new(Config::hardcoded());
    balances.adjust_balance(2, 1, 1000);

    let order = Order::new(2, 2, 1, OrderSide::Sell, 100, 200);
    balances.debit_for_order(&order);
    assert_eq!(balances.get_balance(2, 1), 800);

    let mut after_fills = order;
    after_fills.remaining = 50;
    balances.credit_for_canceled_order(&after_fills);
    assert_eq!(balances.get_balance(2, 1), 850);
}

#[test]
fn it_credits_both_legs_on_settlement() {
    // Settlement credits exactly two legs: the buyer gains the traded size
    // in base units, the seller gains size times price in quote units.
    let mut balances = Balances::new(Config::hardcoded());
    balances.adjust_balance(7, 1, 400);
    balances.adjust_balance(8, 2, 90000);

    let trade = Trade {
        price: 100,
        size: 300,
        maker_order_id: 1,
        taker_order_id: 2,
        maker_user_id: 7,
        taker_user_id: 8,
        side: OrderSide::Sell,
        market_id: 1,
    };
    balances.settle(&trade);

    // Buyer (taker, user 8) received 300 base; seller (maker, user 7)
    // received 30000 quote.
    assert_eq!(balances.get_balance(8, 1), 300);
    assert_eq!(balances.get_balance(7, 2), 30000);
    let base_total = balances.get_balance(7, 1) + balances.get_balance(8, 1);
    let quote_total = balances.get_balance(7, 2) + balances.get_balance(8, 2);
    assert_eq!(base_total, 400 + 300);
    assert_eq!(quote_total, 90000 + 30000);
}
