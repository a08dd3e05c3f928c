use matching_engine::allocation::{fifo_caps, pro_rata_allocation, MatchingMode};
use matching_engine::engine::OrderBook;
use matching_engine::models::{Order, OrderType, Side, Trade};
use matching_engine::request::{order_from_request, order_type_from_lowercase, side_from_lowercase, RequestError};
use std::collections::VecDeque;

fn make_order(user: &str, price: u64, qty: u64, side: Side) -> Order {
    Order::new(
        user.to_string(),
        "AAPL".to_string(),
        side,
        OrderType::Limit,
        Some(price),
        qty,
    )
}

fn make_market_order(user: &str, qty: u64, side: Side) -> Order {
    Order::new(
        user.to_string(),
        "AAPL".to_string(),
        side,
        OrderType::Market,
        None,
        qty,
    )
}

fn summary(trades: &[Trade]) -> Vec<(u64, u64, String, String)> {
    trades
        .iter()
        .map(|t| (t.price, t.quantity, t.buyer.clone(), t.seller.clone()))
        .collect()
}

#[test]
fn test_fifo_match_single_fill() {
    let mut book = OrderBook::new(MatchingMode::Fifo);
    book.submit_order(make_order("seller1", 100, 10, Side::Sell));
    let trades = book.submit_order(make_order("buyer1", 100, 10, Side::Buy));

    assert_eq!(trades.len(), 1);
    assert_eq!(trades[0].price, 100);
    assert_eq!(trades[0].quantity, 10);
    assert_eq!(trades[0].buyer, "buyer1");
    assert_eq!(trades[0].seller, "seller1");
}

#[test]
fn test_fifo_partial_fill_and_resting_order() {
    let mut book = OrderBook::new(MatchingMode::Fifo);
    book.submit_order(make_order("seller1", 100, 5, Side::Sell));
    let trades = book.submit_order(make_order("buyer1", 100, 10, Side::Buy));

    assert_eq!(trades.len(), 1);
    assert_eq!(trades[0].quantity, 5);
    assert!(book.buy_book.get(&100).is_some());
}

#[test]
fn test_pro_rata_split_across_sellers() {
    let mut book = OrderBook::new(MatchingMode::ProRata);
    book.submit_order(make_order("s1", 100, 10, Side::Sell));
    book.submit_order(make_order("s2", 100, 20, Side::Sell));
    book.submit_order(make_order("s3", 100, 30, Side::Sell));

    let trades = book.submit_order(make_order("b1", 100, 30, Side::Buy));
    assert_eq!(trades.len(), 3);
    let total_qty: u64 = trades.iter().map(|t| t.quantity).sum();
    assert_eq!(total_qty, 30);
}

#[test]
fn test_market_order_executes_best_price() {
    let mut book = OrderBook::new(MatchingMode::Fifo);
    book.submit_order(make_order("s1", 99, 5, Side::Sell));
    book.submit_order(make_order("s2", 98, 5, Side::Sell));

    let trades = book.submit_order(make_market_order("b1", 10, Side::Buy));
    assert_eq!(trades.len(), 2);
    assert_eq!(trades[0].price, 98);
    assert_eq!(trades[1].price, 99);
}

#[test]
fn test_fifo_resting_limit_order() {
    let mut book = OrderBook::new(MatchingMode::Fifo);
    let order = make_order("buyer1", 99, 10, Side::Buy);
    book.submit_order(order.clone());
    assert_eq!(book.buy_book.get(&99).unwrap().front().unwrap().user_id, "buyer1");
}

#[test]
fn test_market_order_partial_fill() {
    let mut book = OrderBook::new(MatchingMode::Fifo);
    book.submit_order(make_order("s1", 100, 3, Side::Sell));
    let trades = book.submit_order(make_market_order("b1", 5, Side::Buy));
    assert_eq!(trades.len(), 1);
    assert_eq!(trades[0].quantity, 3);
    assert!(book.sell_book.is_empty()); // market order doesn't rest
}

#[test]
fn test_limit_order_cross_multiple_price_levels() {
    let mut book = OrderBook::new(MatchingMode::Fifo);
    book.submit_order(make_order("s1", 100, 3, Side::Sell));
    book.submit_order(make_order("s2", 101, 2, Side::Sell));
    let trades = book.submit_order(make_order("b1", 101, 5, Side::Buy));
    assert_eq!(trades.len(), 2);
    assert_eq!(trades[0].price, 100);
    assert_eq!(trades[1].price, 101);
}

#[test]
fn test_book_cleanup_after_full_match() {
    let mut book = OrderBook::new(MatchingMode::Fifo);
    book.submit_order(make_order("s1", 100, 5, Side::Sell));
    book.submit_order(make_order("b1", 100, 5, Side::Buy));
    assert!(book.sell_book.get(&100).is_none());
    assert!(book.buy_book.get(&100).is_none());
}

#[test]
fn test_no_trade_when_price_doesnt_cross() {
    let mut book = OrderBook::new(MatchingMode::Fifo);
    book.submit_order(make_order("s1", 105, 5, Side::Sell));
    let trades = book.submit_order(make_order("b1", 100, 5, Side::Buy));
    assert_eq!(trades.len(), 0);
    assert!(book.buy_book.get(&100).is_some());
    assert!(book.sell_book.get(&105).is_some());
}

#[test]
fn test_pro_rata_multiple_levels_only_best_matched() {
    let mut book = OrderBook::new(MatchingMode::ProRata);
    book.submit_order(make_order("s1", 100, 10, Side::Sell));
    book.submit_order(make_order("s2", 101, 10, Side::Sell));
    let trades = book.submit_order(make_order("b1", 101, 5, Side::Buy));
    // Only best price level (100) should match
    assert!(trades.iter().all(|t| t.price == 100));
}

#[test]
fn fifo_exact_fill_empties_both_sides() {
    let mut book = OrderBook::new(MatchingMode::Fifo);
    assert!(book.submit_order(make_order("s1", 100, 10, Side::Sell)).is_empty());
    let trades = book.submit_order(make_order("b1", 100, 10, Side::Buy));
    assert_eq!(summary(&trades), vec![(100, 10, "b1".to_string(), "s1".to_string())]);
    assert!(book.buy_book.is_empty());
    assert!(book.sell_book.is_empty());
}

#[test]
fn fifo_partial_rest_keeps_residue_at_limit() {
    let mut book = OrderBook::new(MatchingMode::Fifo);
    book.submit_order(make_order("s1", 100, 5, Side::Sell));
    let trades = book.submit_order(make_order("b1", 100, 10, Side::Buy));
    assert_eq!(summary(&trades), vec![(100, 5, "b1".to_string(), "s1".to_string())]);
    let q = book.buy_book.get(&100).unwrap();
    assert_eq!(q.len(), 1);
    assert_eq!(q[0].quantity, 5);
    assert_eq!(q[0].user_id, "b1");
    assert!(book.sell_book.is_empty());
}

#[test]
fn pro_rata_split_floors_in_queue_order() {
    let mut book = OrderBook::new(MatchingMode::ProRata);
    book.submit_order(make_order("s1", 100, 10, Side::Sell));
    book.submit_order(make_order("s2", 100, 20, Side::Sell));
    book.submit_order(make_order("s3", 100, 30, Side::Sell));
    let trades = book.submit_order(make_order("b1", 100, 30, Side::Buy));
    assert_eq!(
        summary(&trades),
        vec![
            (100, 5, "b1".to_string(), "s1".to_string()),
            (100, 10, "b1".to_string(), "s2".to_string()),
            (100, 15, "b1".to_string(), "s3".to_string()),
        ]
    );
    let q: Vec<(String, u64)> =
        book.sell_book.get(&100).unwrap().iter().map(|o| (o.user_id.clone(), o.quantity)).collect();
    assert_eq!(
        q,
        vec![("s1".to_string(), 5), ("s2".to_string(), 10), ("s3".to_string(), 15)]
    );
}

#[test]
fn pro_rata_leftover_goes_to_largest() {
    let mut book = OrderBook::new(MatchingMode::ProRata);
    book.submit_order(make_order("s1", 100, 10, Side::Sell));
    book.submit_order(make_order("s2", 100, 20, Side::Sell));
    let trades = book.submit_order(make_order("b1", 100, 7, Side::Buy));
    assert_eq!(
        summary(&trades),
        vec![
            (100, 2, "b1".to_string(), "s1".to_string()),
            (100, 5, "b1".to_string(), "s2".to_string()),
        ]
    );
}

#[test]
fn pro_rata_leftover_ties_go_to_earlier() {
    let mut book = OrderBook::new(MatchingMode::ProRata);
    book.submit_order(make_order("s1", 100, 10, Side::Sell));
    book.submit_order(make_order("s2", 100, 10, Side::Sell));
    book.submit_order(make_order("s3", 100, 10, Side::Sell));
    let trades = book.submit_order(make_order("b1", 100, 2, Side::Buy));
    assert_eq!(
        summary(&trades),
        vec![
            (100, 1, "b1".to_string(), "s1".to_string()),
            (100, 1, "b1".to_string(), "s2".to_string()),
        ]
    );
    let q: Vec<u64> = book.sell_book.get(&100).unwrap().iter().map(|o| o.quantity).collect();
    assert_eq!(q, vec![9, 9, 10]);
}

#[test]
fn pro_rata_level_smaller_than_incoming_is_consumed() {
    let mut book = OrderBook::new(MatchingMode::ProRata);
    book.submit_order(make_order("s1", 100, 3, Side::Sell));
    book.submit_order(make_order("s2", 100, 4, Side::Sell));
    let trades = book.submit_order(make_order("b1", 100, 10, Side::Buy));
    assert_eq!(
        summary(&trades),
        vec![
            (100, 3, "b1".to_string(), "s1".to_string()),
            (100, 4, "b1".to_string(), "s2".to_string()),
        ]
    );
    assert!(book.sell_book.is_empty());
    assert_eq!(book.buy_book.get(&100).unwrap()[0].quantity, 3);
}

#[test]
fn pro_rata_stops_at_best_level_and_keeps_the_next() {
    let mut book = OrderBook::new(MatchingMode::ProRata);
    book.submit_order(make_order("s1", 100, 10, Side::Sell));
    book.submit_order(make_order("s2", 101, 10, Side::Sell));
    let trades = book.submit_order(make_order("b1", 101, 5, Side::Buy));
    assert_eq!(summary(&trades), vec![(100, 5, "b1".to_string(), "s1".to_string())]);
    let q = book.sell_book.get(&101).unwrap();
    assert_eq!(q.len(), 1);
    assert_eq!(q[0].quantity, 10);
    assert_eq!(book.sell_book.get(&100).unwrap()[0].quantity, 5);
}

#[test]
fn market_buy_crosses_levels_and_does_not_rest() {
    let mut book = OrderBook::new(MatchingMode::Fifo);
    book.submit_order(make_order("s1", 99, 5, Side::Sell));
    book.submit_order(make_order("s2", 98, 5, Side::Sell));
    let trades = book.submit_order(make_market_order("b1", 10, Side::Buy));
    assert_eq!(
        summary(&trades),
        vec![
            (98, 5, "b1".to_string(), "s2".to_string()),
            (99, 5, "b1".to_string(), "s1".to_string()),
        ]
    );
    assert!(book.sell_book.is_empty());
    assert!(book.buy_book.is_empty());
}

#[test]
fn limit_buy_crosses_two_levels() {
    let mut book = OrderBook::new(MatchingMode::Fifo);
    book.submit_order(make_order("s1", 100, 3, Side::Sell));
    book.submit_order(make_order("s2", 101, 2, Side::Sell));
    let trades = book.submit_order(make_order("b1", 101, 5, Side::Buy));
    assert_eq!(
        summary(&trades),
        vec![
            (100, 3, "b1".to_string(), "s1".to_string()),
            (101, 2, "b1".to_string(), "s2".to_string()),
        ]
    );
    assert!(book.sell_book.is_empty());
    assert!(book.buy_book.is_empty());
}

#[test]
fn no_cross_rests_both_orders() {
    let mut book = OrderBook::new(MatchingMode::Fifo);
    book.submit_order(make_order("s1", 105, 5, Side::Sell));
    let trades = book.submit_order(make_order("b1", 100, 5, Side::Buy));
    assert!(trades.is_empty());
    assert_eq!(book.buy_book.get(&100).unwrap()[0].quantity, 5);
    assert_eq!(book.sell_book.get(&105).unwrap()[0].quantity, 5);
    assert_eq!(book.buy_book.len(), 1);
    assert_eq!(book.sell_book.len(), 1);
}

#[test]
fn sell_walks_bids_from_highest() {
    let mut book = OrderBook::new(MatchingMode::Fifo);
    book.submit_order(make_order("b1", 99, 2, Side::Buy));
    book.submit_order(make_order("b2", 101, 2, Side::Buy));
    book.submit_order(make_order("b3", 100, 2, Side::Buy));
    let trades = book.submit_order(make_order("s1", 100, 5, Side::Sell));
    assert_eq!(
        summary(&trades),
        vec![
            (101, 2, "b2".to_string(), "s1".to_string()),
            (100, 2, "b3".to_string(), "s1".to_string()),
        ]
    );
    assert_eq!(book.sell_book.get(&100).unwrap()[0].quantity, 1);
    assert_eq!(book.buy_book.get(&99).unwrap()[0].quantity, 2);
    assert!(book.buy_book.get(&101).is_none());
}

#[test]
fn fifo_fills_earlier_order_first() {
    let mut book = OrderBook::new(MatchingMode::Fifo);
    book.submit_order(make_order("s1", 100, 4, Side::Sell));
    book.submit_order(make_order("s2", 100, 4, Side::Sell));
    let trades = book.submit_order(make_order("b1", 100, 6, Side::Buy));
    assert_eq!(
        summary(&trades),
        vec![
            (100, 4, "b1".to_string(), "s1".to_string()),
            (100, 2, "b1".to_string(), "s2".to_string()),
        ]
    );
    let q = book.sell_book.get(&100).unwrap();
    assert_eq!(q.len(), 1);
    assert_eq!(q[0].user_id, "s2");
    assert_eq!(q[0].quantity, 2);
}

#[test]
fn same_price_orders_queue_in_arrival_order() {
    let mut book = OrderBook::new(MatchingMode::Fifo);
    book.submit_order(make_order("b1", 100, 1, Side::Buy));
    book.submit_order(make_order("b2", 100, 2, Side::Buy));
    let q: Vec<String> = book.buy_book.get(&100).unwrap().iter().map(|o| o.user_id.clone()).collect();
    assert_eq!(q, vec!["b1".to_string(), "b2".to_string()]);
}

#[test]
fn market_order_on_empty_book_is_dropped() {
    let mut book = OrderBook::new(MatchingMode::ProRata);
    let trades = book.submit_order(make_market_order("b1", 7, Side::Buy));
    assert!(trades.is_empty());
    assert!(book.buy_book.is_empty());
    assert!(book.sell_book.is_empty());
}

#[test]
fn pro_rata_allocation_floor_and_bonus() {
    let mut q = VecDeque::new();
    q.push_back(make_order("s1", 100, 10, Side::Sell));
    q.push_back(make_order("s2", 100, 20, Side::Sell));
    assert_eq!(pro_rata_allocation(&q, 7), vec![2, 5]);
    assert_eq!(pro_rata_allocation(&q, 30), vec![10, 20]);
    assert_eq!(pro_rata_allocation(&q, 100), vec![33, 67]);
}

#[test]
fn pro_rata_allocation_handles_largest_quantities() {
    let mut q = VecDeque::new();
    q.push_back(make_order("s1", 100, u64::MAX, Side::Sell));
    q.push_back(make_order("s2", 100, u64::MAX, Side::Sell));
    assert_eq!(pro_rata_allocation(&q, u64::MAX), vec![u64::MAX as u128 / 2 + 1, u64::MAX as u128 / 2]);
}

#[test]
fn fifo_caps_are_quantities() {
    let mut q = VecDeque::new();
    q.push_back(make_order("s1", 100, 3, Side::Sell));
    q.push_back(make_order("s2", 100, 8, Side::Sell));
    assert_eq!(fifo_caps(&q), vec![3, 8]);
}

#[test]
fn new_orders_get_distinct_ids() {
    let a = make_order("u", 1, 1, Side::Buy);
    let b = make_order("u", 1, 1, Side::Buy);
    assert_ne!(a.id, b.id);
    assert!(!a.id.is_empty());
    assert!(a.timestamp > 0);
}

#[test]
fn request_fields_are_matched_without_case() {
    let o = order_from_request("u1".to_string(), "AAPL".to_string(), "BuY", "LIMIT", 101, 4).unwrap();
    assert_eq!(o.side, Side::Buy);
    assert_eq!(o.order_type, OrderType::Limit);
    assert_eq!(o.price, Some(101));
    assert_eq!(o.quantity, 4);
    assert_eq!(o.user_id, "u1");
    let m = order_from_request("u2".to_string(), "AAPL".to_string(), "Sell", "Market", 101, 4).unwrap();
    assert_eq!(m.side, Side::Sell);
    assert_eq!(m.order_type, OrderType::Market);
    assert_eq!(m.price, None);
}

#[test]
fn request_errors() {
    let e = |side: &str, ty: &str, q: u64| {
        order_from_request("u".to_string(), "X".to_string(), side, ty, 1, q).unwrap_err()
    };
    assert_eq!(e("hold", "limit", 1), RequestError::InvalidSide);
    assert_eq!(e("hold", "nope", 1), RequestError::InvalidSide);
    assert_eq!(e("buy", "stop", 1), RequestError::InvalidOrderType);
    assert_eq!(e("sell", "market", 0), RequestError::InvalidQuantity);
}

#[test]
fn lowercase_words_name_sides_and_types() {
    assert_eq!(side_from_lowercase(&"buy".to_string()), Some(Side::Buy));
    assert_eq!(side_from_lowercase(&"sell".to_string()), Some(Side::Sell));
    assert_eq!(side_from_lowercase(&"Buy".to_string()), None);
    assert_eq!(order_type_from_lowercase(&"market".to_string()), Some(OrderType::Market));
    assert_eq!(order_type_from_lowercase(&"limit".to_string()), Some(OrderType::Limit));
    assert_eq!(order_type_from_lowercase(&"LIMIT".to_string()), None);
}

#[test]
fn taker_loses_what_it_trades_and_rests_the_rest() {
    let mut book = OrderBook::new(MatchingMode::Fifo);
    book.submit_order(make_order("s1", 100, 3, Side::Sell));
    book.submit_order(make_order("s2", 101, 4, Side::Sell));
    let trades = book.submit_order(make_order("b1", 102, 10, Side::Buy));
    let traded: u64 = trades.iter().map(|t| t.quantity).sum();
    assert_eq!(traded, 7);
    assert_eq!(book.buy_book.get(&102).unwrap()[0].quantity, 3);
    assert!(book.sell_book.is_empty());
}

#[test]
fn buy_limit_bounds_trade_prices() {
    let mut book = OrderBook::new(MatchingMode::Fifo);
    book.submit_order(make_order("s1", 99, 1, Side::Sell));
    book.submit_order(make_order("s2", 100, 1, Side::Sell));
    book.submit_order(make_order("s3", 101, 1, Side::Sell));
    let trades = book.submit_order(make_order("b1", 100, 5, Side::Buy));
    let prices: Vec<u64> = trades.iter().map(|t| t.price).collect();
    assert_eq!(prices, vec![99, 100]);
    assert_eq!(book.buy_book.get(&100).unwrap()[0].quantity, 3);
    assert_eq!(book.sell_book.get(&101).unwrap()[0].quantity, 1);
    assert_eq!(book.sell_book.len(), 1);
}

#[test]
fn sell_limit_bounds_trade_prices() {
    let mut book = OrderBook::new(MatchingMode::ProRata);
    book.submit_order(make_order("b1", 98, 1, Side::Buy));
    book.submit_order(make_order("b2", 99, 1, Side::Buy));
    book.submit_order(make_order("b3", 100, 1, Side::Buy));
    let trades = book.submit_order(make_order("s1", 99, 5, Side::Sell));
    assert_eq!(
        summary(&trades),
        vec![
            (100, 1, "b3".to_string(), "s1".to_string()),
            (99, 1, "b2".to_string(), "s1".to_string()),
        ]
    );
    assert_eq!(book.sell_book.get(&99).unwrap()[0].quantity, 3);
    assert_eq!(book.buy_book.get(&98).unwrap()[0].quantity, 1);
    assert_eq!(book.buy_book.len(), 1);
}

#[test]
fn pro_rata_submission_trades_all_crossing_liquidity() {
    let mut book = OrderBook::new(MatchingMode::ProRata);
    book.submit_order(make_order("s1", 100, 3, Side::Sell));
    book.submit_order(make_order("s2", 100, 2, Side::Sell));
    book.submit_order(make_order("s3", 101, 4, Side::Sell));
    book.submit_order(make_order("s4", 102, 6, Side::Sell));
    let trades = book.submit_order(make_order("b1", 101, 20, Side::Buy));
    assert_eq!(
        summary(&trades),
        vec![
            (100, 3, "b1".to_string(), "s1".to_string()),
            (100, 2, "b1".to_string(), "s2".to_string()),
            (101, 4, "b1".to_string(), "s3".to_string()),
        ]
    );
    let q = book.buy_book.get(&101).unwrap();
    assert_eq!(q.len(), 1);
    assert_eq!(q[0].quantity, 11);
    assert_eq!(book.sell_book.len(), 1);
    assert_eq!(book.sell_book.get(&102).unwrap()[0].quantity, 6);
}

#[test]
fn valid_request_with_positive_quantity_is_accepted() {
    assert!(order_from_request("u".to_string(), "X".to_string(), "SELL", "limit", 0, 1).is_ok());
}
