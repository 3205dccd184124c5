use rust_matching_engine::order::{Order, OrderType, Side};
use rust_matching_engine::order_book::OrderBook;
use rust_matching_engine::order_index::{OrderIndex, OrderLocation};

fn limit(id: u64, side: Side, price: i64, quantity: i64) -> Order {
    Order { id, side, order_type: OrderType::Limit, price: Some(price), quantity, sequence: id }
}

#[test]
fn best_prices_follow_each_side() {
    let mut book = OrderBook::new();
    assert_eq!(book.best_bid_price(), None);
    assert_eq!(book.best_ask_price(), None);
    book.insert(limit(1, Side::Buy, 98, 1));
    book.insert(limit(2, Side::Buy, 99, 1));
    book.insert(limit(3, Side::Sell, 103, 1));
    book.insert(limit(4, Side::Sell, 101, 1));
    assert_eq!(book.best_bid_price(), Some(99));
    assert_eq!(book.best_ask_price(), Some(101));
    assert_eq!(book.peek_best_bid().map(|o| o.id), Some(2));
    assert_eq!(book.peek_best_ask().map(|o| o.id), Some(4));
}

#[test]
fn pops_follow_price_then_time() {
    let mut book = OrderBook::new();
    book.insert(limit(1, Side::Sell, 100, 1));
    book.insert(limit(2, Side::Sell, 100, 1));
    book.insert(limit(3, Side::Sell, 99, 1));
    assert_eq!(book.pop_best_ask().map(|o| o.id), Some(3));
    assert_eq!(book.pop_best_ask().map(|o| o.id), Some(1));
    assert_eq!(book.pop_best_ask().map(|o| o.id), Some(2));
    assert_eq!(book.pop_best_ask(), None);
    assert_eq!(book.depth(Side::Sell), 0);
    book.insert(limit(4, Side::Buy, 50, 1));
    book.insert(limit(5, Side::Buy, 51, 1));
    assert_eq!(book.pop_best_bid().map(|o| o.id), Some(5));
    assert_eq!(book.depth(Side::Buy), 1);
}

#[test]
fn reduce_keeps_head_until_filled() {
    let mut book = OrderBook::new();
    book.insert(limit(1, Side::Buy, 10, 5));
    book.insert(limit(2, Side::Buy, 10, 5));
    book.reduce_best_price(3);
    assert_eq!(book.peek_best_bid().map(|o| (o.id, o.quantity)), Some((1, 2)));
    book.reduce_best_price(2);
    assert_eq!(book.peek_best_bid().map(|o| (o.id, o.quantity)), Some((2, 5)));
    book.insert(limit(3, Side::Sell, 20, 4));
    book.reduce_best_ask(4);
    assert_eq!(book.best_ask_price(), None);
    assert_eq!(book.depth(Side::Sell), 0);
}

#[test]
fn remove_order_finds_by_level_and_id() {
    let mut book = OrderBook::new();
    book.insert(limit(1, Side::Sell, 100, 1));
    book.insert(limit(2, Side::Sell, 100, 1));
    assert!(!book.remove_order(Side::Sell, 101, 1));
    assert!(!book.remove_order(Side::Buy, 100, 1));
    assert!(book.remove_order(Side::Sell, 100, 1));
    assert_eq!(book.peek_best_ask().map(|o| o.id), Some(2));
    assert!(book.remove_order(Side::Sell, 100, 2));
    assert_eq!(book.depth(Side::Sell), 0);
    assert!(!book.remove_order(Side::Sell, 100, 2));
}

#[test]
fn index_records_and_forgets() {
    let mut index = OrderIndex::new();
    let loc = OrderLocation { side: Side::Buy, price: 42 };
    assert!(!index.contains(7));
    index.insert(7, loc);
    assert!(index.contains(7));
    assert_eq!(index.remove(7), Some(loc));
    assert_eq!(index.remove(7), None);
    assert!(!index.contains(7));
}

#[test]
fn reduce_by_zero_changes_nothing() {
    let mut book = OrderBook::new();
    book.insert(limit(1, Side::Buy, 10, 5));
    book.insert(limit(2, Side::Sell, 12, 4));
    book.reduce_best_price(0);
    book.reduce_best_ask(0);
    assert_eq!(book.peek_best_bid().map(|o| (o.id, o.quantity)), Some((1, 5)));
    assert_eq!(book.peek_best_ask().map(|o| (o.id, o.quantity)), Some((2, 4)));
    assert_eq!(book.depth(Side::Buy), 1);
    assert_eq!(book.depth(Side::Sell), 1);
    let mut empty = OrderBook::new();
    empty.reduce_best_price(0);
    empty.reduce_best_ask(3);
    assert_eq!(empty.depth(Side::Buy), 0);
    assert_eq!(empty.depth(Side::Sell), 0);
}

#[test]
fn remove_order_takes_the_first_match() {
    let mut book = OrderBook::new();
    let mut first = limit(5, Side::Buy, 30, 1);
    first.sequence = 1;
    let mut second = limit(5, Side::Buy, 30, 9);
    second.sequence = 2;
    book.insert(first);
    book.insert(second);
    assert!(book.remove_order(Side::Buy, 30, 5));
    assert_eq!(book.peek_best_bid().map(|o| (o.id, o.quantity)), Some((5, 9)));
}
