use suez::book::Book;
use suez::utils::{Order, OrderSide};

#[test]
fn it_adds_bids_in_correct_order() {
    let mut market = Book::new();

    market.execute_order(Order::new(1, 1, 1, OrderSide::Buy, 1001, 1));
    market.execute_order(Order::new(2, 1, 1, OrderSide::Buy, 1000, 1));
    market.execute_order(Order::new(3, 1, 1, OrderSide::Buy, 998, 1));
    market.execute_order(Order::new(4, 1, 1, OrderSide::Buy, 1002, 1));
    market.execute_order(Order::new(5, 1, 1, OrderSide::Buy, 1004, 1));

    assert_eq!(market.bids.len(), 5);
    assert_eq!(market.bids[0].price, 1004);
    assert_eq!(market.bids[1].price, 1002);
    assert_eq!(market.bids[2].price, 1001);
    assert_eq!(market.bids[3].price, 1000);
    assert_eq!(market.bids[4].price, 998);
}

#[test]
fn it_adds_asks_in_correct_order() {
    let mut market = Book::new();

    market.execute_order(Order::new(1, 1, 1, OrderSide::Sell, 1001, 1));
    market.execute_order(Order::new(2, 1, 1, OrderSide::Sell, 1000, 1));
    market.execute_order(Order::new(3, 1, 1, OrderSide::Sell, 998, 1));
    market.execute_order(Order::new(4, 1, 1, OrderSide::Sell, 1002, 1));
    market.execute_order(Order::new(5, 1, 1, OrderSide::Sell, 1004, 1));

    assert_eq!(market.asks.len(), 5);
    assert_eq!(market.asks[0].price, 998);
    assert_eq!(market.asks[1].price, 1000);
    assert_eq!(market.asks[2].price, 1001);
    assert_eq!(market.asks[3].price, 1002);
    assert_eq!(market.asks[4].price, 1004);
}

#[test]
fn it_matches_in_correct_order() {
    let mut market = Book::new();

    market.execute_order(Order::new(1, 1, 1, OrderSide::Buy, 1001, 10));
    market.execute_order(Order::new(2, 1, 1, OrderSide::Buy, 1002, 10));
    market.execute_order(Order::new(3, 1, 1, OrderSide::Buy, 1000, 10));

    // ASK 15 @ 990
    // Should take 10 @ 1002 from #2 and 5 @ 1001 from #1
    let trades = market.execute_order(Order::new(4, 1, 1, OrderSide::Sell, 990, 15));

    assert_eq!(trades.len(), 2);
    assert_eq!(trades[0].price, 1002);
    assert_eq!(trades[0].size, 10);
    assert_eq!(trades[0].maker_order_id, 2);
    assert_eq!(trades[0].taker_order_id, 4);

    assert_eq!(trades[1].price, 1001);
    assert_eq!(trades[1].size, 5);
    assert_eq!(trades[1].maker_order_id, 1);
    assert_eq!(trades[1].taker_order_id, 4);
}

#[test]
fn it_can_annihilate_two_orders() {
    let mut market = Book::new();

    market.execute_order(Order::new(1, 1, 1, OrderSide::Sell, 1000, 10));
    let trades = market.execute_order(Order::new(2, 1, 1, OrderSide::Buy, 1010, 10));

    assert_eq!(market.bids.len(), 0);
    assert_eq!(market.asks.len(), 0);
    assert_eq!(trades.len(), 1);
    assert_eq!(trades[0].price, 1000);
    assert_eq!(trades[0].size, 10);
}

#[test]
fn it_matches_bids_with_same_price_in_correct_order() {
    let mut market = Book::new();

    market.execute_order(Order::new(1, 1, 1, OrderSide::Buy, 1000, 10));
    market.execute_order(Order::new(2, 1, 1, OrderSide::Buy, 1000, 10));
    market.execute_order(Order::new(3, 1, 1, OrderSide::Buy, 1001, 10));
    market.execute_order(Order::new(4, 1, 1, OrderSide::Buy, 1001, 10));

    // ASK 40 @ 990
    // Should take 10 from 3, 4, 1, 2
    let trades = market.execute_order(Order::new(5, 1, 1, OrderSide::Sell, 990, 40));

    assert_eq!(trades.len(), 4);
    assert_eq!(trades[0].maker_order_id, 3);
    assert_eq!(trades[1].maker_order_id, 4);
    assert_eq!(trades[2].maker_order_id, 1);
    assert_eq!(trades[3].maker_order_id, 2);
}

#[test]
fn it_cancels_order() {
    let mut market = Book::new();

    market.execute_order(Order::new(1, 1, 1, OrderSide::Buy, 1001, 10));
    let canceled_order = market.cancel_order(1).unwrap();

    assert_eq!(canceled_order.remaining, 10);
}

#[test]
fn it_fails_to_cancel_when_order_does_not_exist() {
    let mut market = Book::new();

    market.execute_order(Order::new(1, 1, 1, OrderSide::Buy, 1001, 10));
    assert!(market.cancel_order(2).is_err());
}

#[test]
fn it_cannot_cancel_same_order_twice() {
    let mut market = Book::new();

    market.execute_order(Order::new(1, 1, 1, OrderSide::Buy, 1001, 10));

    let canceled_order = market.cancel_order(1).unwrap();
    assert_eq!(canceled_order.remaining, 10);

    let canceled_order = market.cancel_order(1);
    assert!(canceled_order.is_err());
}

#[test]
fn it_keeps_price_time_order_across_price_levels() {
    // Four bids placed in order: two at 1000, then two at 1001.  A sell
    // that crosses all of them consumes best price first, and within one
    // price the earlier arrival first: 3, 4, 1, 2.
    let mut market = Book::new();

    market.execute_order(Order::new(1, 1, 1, OrderSide::Buy, 1000, 10));
    market.execute_order(Order::new(2, 2, 1, OrderSide::Buy, 1000, 10));
    market.execute_order(Order::new(3, 3, 1, OrderSide::Buy, 1001, 10));
    market.execute_order(Order::new(4, 4, 1, OrderSide::Buy, 1001, 10));

    let trades = market.execute_order(Order::new(5, 5, 1, OrderSide::Sell, 990, 40));

    assert_eq!(trades.len(), 4);
    assert_eq!(trades[0].maker_order_id, 3);
    assert_eq!(trades[0].price, 1001);
    assert_eq!(trades[1].maker_order_id, 4);
    assert_eq!(trades[1].price, 1001);
    assert_eq!(trades[2].maker_order_id, 1);
    assert_eq!(trades[2].price, 1000);
    assert_eq!(trades[3].maker_order_id, 2);
    assert_eq!(trades[3].price, 1000);
}

#[test]
fn it_crosses_exactly_at_equal_price() {
    // Bid 1001 x 10 resting; ask 1001 x 10 arrives.  One trade at 1001 for
    // the full size, and the book is empty on both sides afterwards.
    let mut market = Book::new();

    market.execute_order(Order::new(1, 1, 1, OrderSide::Buy, 1001, 10));
    let trades = market.execute_order(Order::new(2, 2, 1, OrderSide::Sell, 1001, 10));

    assert_eq!(trades.len(), 1);
    assert_eq!(trades[0].price, 1001);
    assert_eq!(trades[0].size, 10);
    assert_eq!(market.bids.len(), 0);
    assert_eq!(market.asks.len(), 0);
}

#[test]
fn it_rests_both_sides_when_prices_do_not_cross() {
    // Bid 1000 x 10 resting; ask 1001 x 10 arrives.  No trade: both rest,
    // and the best bid stays strictly below the best ask.
    let mut market = Book::new();

    market.execute_order(Order::new(1, 1, 1, OrderSide::Buy, 1000, 10));
    let trades = market.execute_order(Order::new(2, 2, 1, OrderSide::Sell, 1001, 10));

    assert_eq!(trades.len(), 0);
    assert_eq!(market.bids.len(), 1);
    assert_eq!(market.asks.len(), 1);
    assert!(market.bids[0].price < market.asks[0].price);
    assert_eq!(market.bids[0].price, 1000);
    assert_eq!(market.asks[0].price, 1001);
}

#[test]
fn it_emits_trade_at_maker_price_on_improvement() {
    // The taker offers a better price than the resting maker; the trade
    // executes at the maker's price.
    let mut market = Book::new();

    market.execute_order(Order::new(1, 1, 1, OrderSide::Sell, 995, 7));
    let trades = market.execute_order(Order::new(2, 2, 1, OrderSide::Buy, 1005, 7));

    assert_eq!(trades.len(), 1);
    assert_eq!(trades[0].price, 995);
    assert_eq!(trades[0].size, 7);
    assert_eq!(trades[0].maker_order_id, 1);
    assert_eq!(trades[0].side, OrderSide::Sell);
}

#[test]
fn it_keeps_partial_remainder_resting() {
    // A partially filled maker stays in the book with its remainder.
    let mut market = Book::new();

    market.execute_order(Order::new(1, 1, 1, OrderSide::Sell, 100, 200));
    let trades = market.execute_order(Order::new(2, 2, 1, OrderSide::Buy, 100, 50));

    assert_eq!(trades.len(), 1);
    assert_eq!(trades[0].size, 50);
    assert_eq!(market.asks.len(), 1);
    assert_eq!(market.asks[0].remaining, 150);
    assert_eq!(market.asks[0].size, 200);
}
