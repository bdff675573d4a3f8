use order_book::{AmendError, Order, OrderBook, OrderType, Side};

fn order(
    id: u128,
    side: Side,
    order_type: OrderType,
    amount: u64,
    filled: u64,
    price: Option<u64>,
) -> Order {
    Order {
        id,
        user_id: 7,
        market_id: String::from("BTC-USD"),
        side,
        order_type,
        amount,
        filled_amount: filled,
        price,
        timestamp: 0,
    }
}

#[test]
fn best_prices_empty_book() {
    let book = OrderBook::new();
    assert_eq!(book.get_best_bid(), None);
    assert_eq!(book.get_best_ask(), None);
}

#[test]
fn best_prices_after_inserts() {
    let mut book = OrderBook::new();
    book.add_bid(order(1, Side::Buy, OrderType::Limit, 5, 0, Some(100)));
    book.add_bid(order(2, Side::Buy, OrderType::Limit, 5, 0, Some(95)));
    book.add_ask(order(3, Side::Sell, OrderType::Limit, 5, 0, Some(110)));
    book.add_ask(order(4, Side::Sell, OrderType::Limit, 5, 0, Some(105)));
    assert_eq!(book.get_best_bid(), Some(100));
    assert_eq!(book.get_best_ask(), Some(105));
}

#[test]
fn limit_taker_fills_against_resting_bid() {
    let mut book = OrderBook::new();
    book.add_bid(order(1, Side::Buy, OrderType::Limit, 5, 0, Some(100)));
    let taker = order(2, Side::Sell, OrderType::Limit, 3, 0, Some(100));
    let result = book.match_order(taker);
    assert_eq!(result.trades.len(), 1);
    assert_eq!(result.trades[0].amount, 3);
    assert_eq!(result.trades[0].price, 100);
    assert_eq!(result.trades[0].maker_order_id, 1);
    assert_eq!(result.trades[0].taker_order_id, 2);
    assert_eq!(result.trades[0].taker_side, Side::Sell);
    assert_eq!(result.trades[0].market_id, "BTC-USD");
    assert!(result.remaining_taker_order.is_none());
    assert!(result.removed_maker_orders.is_empty());
    assert_eq!(result.updated_maker_orders.len(), 1);
    assert_eq!(result.updated_maker_orders[0].id, 1);
    assert_eq!(result.updated_maker_orders[0].filled_amount, 3);
    let maker = book.get_order_by_id(&1).expect("maker still rests");
    assert_eq!(maker.filled_amount, 3);
    assert_eq!(maker.amount, 5);
}

#[test]
fn market_taker_consumes_in_arrival_order() {
    let mut book = OrderBook::new();
    book.add_bid(order(10, Side::Buy, OrderType::Limit, 4, 0, Some(50)));
    book.add_bid(order(11, Side::Buy, OrderType::Limit, 4, 0, Some(50)));
    let taker = order(12, Side::Sell, OrderType::Market, 6, 0, None);
    let result = book.match_order(taker);
    assert_eq!(result.trades.len(), 2);
    assert_eq!(result.trades[0].maker_order_id, 10);
    assert_eq!(result.trades[0].amount, 4);
    assert_eq!(result.trades[1].maker_order_id, 11);
    assert_eq!(result.trades[1].amount, 2);
    assert_eq!(result.removed_maker_orders, vec![10]);
    assert_eq!(result.updated_maker_orders.len(), 1);
    assert_eq!(result.updated_maker_orders[0].id, 11);
    assert_eq!(result.updated_maker_orders[0].filled_amount, 2);
    assert!(result.remaining_taker_order.is_none());
    assert!(book.get_order_by_id(&10).is_none());
    assert_eq!(book.get_order_by_id(&11).unwrap().filled_amount, 2);
}

#[test]
fn limit_taker_against_empty_side_returns_unchanged() {
    let mut book = OrderBook::new();
    let taker = order(1, Side::Buy, OrderType::Limit, 5, 0, Some(10));
    let result = book.match_order(taker);
    assert!(result.trades.is_empty());
    let rem = result.remaining_taker_order.expect("full remainder");
    assert_eq!(rem.amount, 5);
    assert_eq!(rem.filled_amount, 0);
    assert_eq!(rem.price, Some(10));
}

#[test]
fn limit_taker_below_ask_does_not_cross() {
    let mut book = OrderBook::new();
    book.add_ask(order(1, Side::Sell, OrderType::Limit, 5, 0, Some(20)));
    let taker = order(2, Side::Buy, OrderType::Limit, 5, 0, Some(15));
    let result = book.match_order(taker);
    assert!(result.trades.is_empty());
    let rem = result.remaining_taker_order.expect("full remainder");
    assert_eq!(rem.filled_amount, 0);
    assert_eq!(rem.amount, 5);
    let ask = book.get_order_by_id(&1).expect("ask untouched");
    assert_eq!(ask.filled_amount, 0);
    assert_eq!(book.get_best_ask(), Some(20));
}

#[test]
fn amend_below_filled_amount_fails() {
    let mut book = OrderBook::new();
    book.add_bid(order(1, Side::Buy, OrderType::Limit, 10, 4, Some(30)));
    let result = book.update_bid_amount(1, 3);
    assert_eq!(
        result,
        Err(AmendError::InvalidAmount { attempted: 3, current_amount: 10, filled_amount: 4 })
    );
    let o = book.get_order_by_id(&1).unwrap();
    assert_eq!(o.amount, 10);
    assert_eq!(o.filled_amount, 4);
}

#[test]
fn amend_shrinks_then_cannot_grow() {
    let mut book = OrderBook::new();
    book.add_ask(order(1, Side::Sell, OrderType::Limit, 10, 0, Some(30)));
    assert_eq!(book.update_ask_amount(1, 6), Ok(()));
    assert_eq!(book.get_order_by_id(&1).unwrap().amount, 6);
    let second = book.update_ask_amount(1, 8);
    assert_eq!(
        second,
        Err(AmendError::InvalidAmount { attempted: 8, current_amount: 6, filled_amount: 0 })
    );
    assert_eq!(book.get_order_by_id(&1).unwrap().amount, 6);
}

#[test]
fn amend_zero_fails() {
    let mut book = OrderBook::new();
    book.add_bid(order(1, Side::Buy, OrderType::Limit, 10, 0, Some(30)));
    let result = book.update_bid_amount(1, 0);
    assert_eq!(
        result,
        Err(AmendError::InvalidAmount { attempted: 0, current_amount: 10, filled_amount: 0 })
    );
    assert_eq!(book.get_order_by_id(&1).unwrap().amount, 10);
}

#[test]
fn amend_unknown_id_fails_not_found() {
    let mut book = OrderBook::new();
    assert_eq!(book.update_bid_amount(99, 5), Err(AmendError::NotFound));
    assert_eq!(book.update_ask_amount(99, 5), Err(AmendError::NotFound));
}

#[test]
fn remove_is_idempotent() {
    let mut book = OrderBook::new();
    book.add_bid(order(1, Side::Buy, OrderType::Limit, 5, 0, Some(40)));
    let first = book.remove_bid(1);
    assert_eq!(first.unwrap().id, 1);
    let second = book.remove_bid(1);
    assert!(second.is_none());
    assert_eq!(book.get_best_bid(), None);
    assert!(book.get_order_by_id(&1).is_none());
}

#[test]
fn remove_drops_empty_level_only() {
    let mut book = OrderBook::new();
    book.add_ask(order(1, Side::Sell, OrderType::Limit, 5, 0, Some(40)));
    book.add_ask(order(2, Side::Sell, OrderType::Limit, 3, 0, Some(40)));
    book.remove_ask(1);
    assert_eq!(book.get_best_ask(), Some(40));
    book.remove_ask(2);
    assert_eq!(book.get_best_ask(), None);
}

#[test]
fn market_taker_partial_fill_reports_no_remainder() {
    let mut book = OrderBook::new();
    book.add_ask(order(1, Side::Sell, OrderType::Limit, 2, 0, Some(10)));
    let taker = order(2, Side::Buy, OrderType::Market, 5, 0, None);
    let result = book.match_order(taker);
    assert_eq!(result.trades.len(), 1);
    assert_eq!(result.trades[0].amount, 2);
    assert!(result.remaining_taker_order.is_none());
    assert_eq!(result.removed_maker_orders, vec![1]);
}

#[test]
fn already_filled_taker_is_a_no_op() {
    let mut book = OrderBook::new();
    book.add_ask(order(1, Side::Sell, OrderType::Limit, 5, 0, Some(10)));
    let taker = order(2, Side::Buy, OrderType::Limit, 3, 3, Some(10));
    let result = book.match_order(taker);
    assert!(result.trades.is_empty());
    let rem = result.remaining_taker_order.expect("returned unchanged");
    assert_eq!(rem.id, 2);
    assert_eq!(rem.filled_amount, 3);
    assert_eq!(book.get_order_by_id(&1).unwrap().filled_amount, 0);
}

#[test]
fn taker_walks_levels_best_price_first() {
    let mut book = OrderBook::new();
    book.add_ask(order(1, Side::Sell, OrderType::Limit, 2, 0, Some(12)));
    book.add_ask(order(2, Side::Sell, OrderType::Limit, 2, 0, Some(10)));
    let taker = order(3, Side::Buy, OrderType::Limit, 4, 0, Some(12));
    let result = book.match_order(taker);
    assert_eq!(result.trades.len(), 2);
    assert_eq!(result.trades[0].maker_order_id, 2);
    assert_eq!(result.trades[0].price, 10);
    assert_eq!(result.trades[1].maker_order_id, 1);
    assert_eq!(result.trades[1].price, 12);
    assert!(result.remaining_taker_order.is_none());
}

#[test]
fn snapshot_aggregates_unfilled_per_level() {
    let mut book = OrderBook::new();
    book.add_bid(order(1, Side::Buy, OrderType::Limit, 5, 2, Some(100)));
    book.add_bid(order(2, Side::Buy, OrderType::Limit, 4, 0, Some(100)));
    book.add_bid(order(3, Side::Buy, OrderType::Limit, 1, 0, Some(90)));
    book.add_ask(order(4, Side::Sell, OrderType::Limit, 6, 1, Some(110)));
    book.add_ask(order(5, Side::Sell, OrderType::Limit, 2, 0, Some(120)));
    let snap = book.get_order_book_snapshot();
    assert_eq!(snap.bids.len(), 2);
    assert_eq!(snap.bids[0].price, 100);
    assert_eq!(snap.bids[0].amount, 7);
    assert_eq!(snap.bids[1].price, 90);
    assert_eq!(snap.bids[1].amount, 1);
    assert_eq!(snap.asks.len(), 2);
    assert_eq!(snap.asks[0].price, 110);
    assert_eq!(snap.asks[0].amount, 5);
    assert_eq!(snap.asks[1].price, 120);
    assert_eq!(snap.asks[1].amount, 2);
}

#[test]
fn lookup_by_id_returns_copy_or_none() {
    let mut book = OrderBook::new();
    book.add_bid(order(1, Side::Buy, OrderType::Limit, 5, 0, Some(100)));
    let found = book.get_order_by_id(&1).expect("resting");
    assert_eq!(found.id, 1);
    assert_eq!(found.price, Some(100));
    assert_eq!(found.side, Side::Buy);
    assert!(book.get_order_by_id(&2).is_none());
}

#[test]
fn match_then_rest_keeps_book_uncrossed() {
    let mut book = OrderBook::new();
    book.add_ask(order(1, Side::Sell, OrderType::Limit, 2, 0, Some(20)));
    let taker = order(2, Side::Buy, OrderType::Limit, 5, 0, Some(25));
    let result = book.match_order(taker);
    assert_eq!(result.trades.len(), 1);
    assert_eq!(result.trades[0].price, 20);
    let rem = result.remaining_taker_order.expect("partially filled");
    assert_eq!(rem.filled_amount, 2);
    book.add_bid(rem);
    assert_eq!(book.get_best_bid(), Some(25));
    assert_eq!(book.get_best_ask(), None);
}
