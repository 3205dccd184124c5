use rust_matching_engine::matching_engine::{EngineEvent, MatchingEngine};
use rust_matching_engine::order::{Order, OrderType, Side};
use rust_matching_engine::order_book::OrderBook;
use rust_matching_engine::order_gateway::{GatewayEvent, OrderGateway};
use rust_matching_engine::parser::{parse_command, Command};
use rust_matching_engine::trade::Trade;

fn feed(gateway: &mut OrderGateway, engine: &mut MatchingEngine, line: &str) -> Vec<EngineEvent> {
    let cmd = parse_command(line).expect("command parses");
    let event = gateway.process_command(cmd);
    engine.on_event(event)
}

fn trade(price: i64, quantity: i64, buy_order_id: u64, sell_order_id: u64) -> EngineEvent {
    EngineEvent::Trade(Trade { price, quantity, buy_order_id, sell_order_id })
}

fn reject(reason: &str) -> EngineEvent {
    EngineEvent::Reject(reason.to_string())
}

fn head(book: &OrderBook, side: Side) -> (u64, i64) {
    let o = book.peek_best(side).expect("side has an order");
    (o.id, o.quantity)
}

#[test]
fn simple_cross_empties_book() {
    let (mut g, mut e) = (OrderGateway::new(), MatchingEngine::new());
    assert!(feed(&mut g, &mut e, "SELL LIMIT 100 10").is_empty());
    let out = feed(&mut g, &mut e, "BUY LIMIT 100 10");
    assert_eq!(out, vec![trade(100, 10, 2, 1)]);
    assert_eq!(e.order_book().depth(Side::Buy), 0);
    assert_eq!(e.order_book().depth(Side::Sell), 0);
}

#[test]
fn partial_fill_leaves_maker_resting() {
    let (mut g, mut e) = (OrderGateway::new(), MatchingEngine::new());
    feed(&mut g, &mut e, "SELL LIMIT 100 10");
    let out = feed(&mut g, &mut e, "BUY LIMIT 100 4");
    assert_eq!(out, vec![trade(100, 4, 2, 1)]);
    let book = e.order_book();
    assert_eq!(book.best_ask_price(), Some(100));
    assert_eq!(book.depth(Side::Sell), 1);
    assert_eq!(head(book, Side::Sell), (1, 6));
    assert_eq!(book.best_bid_price(), None);
}

#[test]
fn market_walks_the_book() {
    let (mut g, mut e) = (OrderGateway::new(), MatchingEngine::new());
    feed(&mut g, &mut e, "SELL LIMIT 100 5");
    feed(&mut g, &mut e, "SELL LIMIT 101 5");
    let out = feed(&mut g, &mut e, "BUY MARKET 8");
    assert_eq!(out, vec![trade(100, 5, 3, 1), trade(101, 3, 3, 2)]);
    let book = e.order_book();
    assert_eq!(book.depth(Side::Sell), 1);
    assert_eq!(book.best_ask_price(), Some(101));
    assert_eq!(head(book, Side::Sell), (2, 2));
    assert_eq!(book.depth(Side::Buy), 0);
}

#[test]
fn time_priority_within_level() {
    let (mut g, mut e) = (OrderGateway::new(), MatchingEngine::new());
    feed(&mut g, &mut e, "BUY LIMIT 99 5");
    feed(&mut g, &mut e, "BUY LIMIT 99 5");
    let out = feed(&mut g, &mut e, "SELL LIMIT 99 7");
    assert_eq!(out, vec![trade(99, 5, 1, 3), trade(99, 2, 2, 3)]);
    let book = e.order_book();
    assert_eq!(book.best_bid_price(), Some(99));
    assert_eq!(book.depth(Side::Buy), 1);
    assert_eq!(head(book, Side::Buy), (2, 3));
    assert_eq!(book.depth(Side::Sell), 0);
}

#[test]
fn non_crossing_limits_rest() {
    let (mut g, mut e) = (OrderGateway::new(), MatchingEngine::new());
    assert!(feed(&mut g, &mut e, "BUY LIMIT 99 5").is_empty());
    assert!(feed(&mut g, &mut e, "SELL LIMIT 101 5").is_empty());
    let book = e.order_book();
    assert_eq!(head(book, Side::Buy), (1, 5));
    assert_eq!(book.best_bid_price(), Some(99));
    assert_eq!(head(book, Side::Sell), (2, 5));
    assert_eq!(book.best_ask_price(), Some(101));
}

#[test]
fn cancel_of_resting_order() {
    let (mut g, mut e) = (OrderGateway::new(), MatchingEngine::new());
    feed(&mut g, &mut e, "BUY LIMIT 99 5");
    assert!(feed(&mut g, &mut e, "CANCEL 1").is_empty());
    assert!(feed(&mut g, &mut e, "SELL LIMIT 99 5").is_empty());
    let book = e.order_book();
    assert_eq!(book.depth(Side::Buy), 0);
    assert_eq!(book.best_ask_price(), Some(99));
    assert_eq!(head(book, Side::Sell), (3, 5));
}

#[test]
fn cancel_twice_rejects_second() {
    let (mut g, mut e) = (OrderGateway::new(), MatchingEngine::new());
    feed(&mut g, &mut e, "SELL LIMIT 100 3");
    assert!(feed(&mut g, &mut e, "CANCEL 1").is_empty());
    assert_eq!(feed(&mut g, &mut e, "CANCEL 1"), vec![reject("order not found")]);
    assert!(!e.has_order(1));
}

#[test]
fn cancel_unknown_id_rejects() {
    let (mut g, mut e) = (OrderGateway::new(), MatchingEngine::new());
    assert_eq!(feed(&mut g, &mut e, "CANCEL 42"), vec![reject("order not found")]);
}

#[test]
fn filled_maker_cannot_be_cancelled() {
    let (mut g, mut e) = (OrderGateway::new(), MatchingEngine::new());
    feed(&mut g, &mut e, "SELL LIMIT 100 3");
    feed(&mut g, &mut e, "BUY LIMIT 100 3");
    assert_eq!(feed(&mut g, &mut e, "CANCEL 1"), vec![reject("order not found")]);
}

#[test]
fn market_residue_is_discarded() {
    let (mut g, mut e) = (OrderGateway::new(), MatchingEngine::new());
    feed(&mut g, &mut e, "BUY LIMIT 50 2");
    let out = feed(&mut g, &mut e, "SELL MARKET 5");
    assert_eq!(out, vec![trade(50, 2, 1, 2)]);
    assert_eq!(e.order_book().depth(Side::Buy), 0);
    assert_eq!(e.order_book().depth(Side::Sell), 0);
    assert!(!e.has_order(2));
}

#[test]
fn market_on_empty_book_trades_nothing() {
    let (mut g, mut e) = (OrderGateway::new(), MatchingEngine::new());
    assert!(feed(&mut g, &mut e, "BUY MARKET 5").is_empty());
    assert_eq!(e.order_book().depth(Side::Buy), 0);
}

#[test]
fn limit_remainder_rests_after_partial_cross() {
    let (mut g, mut e) = (OrderGateway::new(), MatchingEngine::new());
    feed(&mut g, &mut e, "SELL LIMIT 100 2");
    feed(&mut g, &mut e, "SELL LIMIT 105 2");
    let out = feed(&mut g, &mut e, "BUY LIMIT 102 5");
    assert_eq!(out, vec![trade(100, 2, 3, 1)]);
    let book = e.order_book();
    assert_eq!(book.best_bid_price(), Some(102));
    assert_eq!(head(book, Side::Buy), (3, 3));
    assert_eq!(book.best_ask_price(), Some(105));
    assert!(e.has_order(3));
}

#[test]
fn sell_aggressor_prices_do_not_rise() {
    let (mut g, mut e) = (OrderGateway::new(), MatchingEngine::new());
    feed(&mut g, &mut e, "BUY LIMIT 97 1");
    feed(&mut g, &mut e, "BUY LIMIT 99 1");
    feed(&mut g, &mut e, "BUY LIMIT 98 1");
    let out = feed(&mut g, &mut e, "SELL LIMIT 97 3");
    assert_eq!(out, vec![trade(99, 1, 2, 4), trade(98, 1, 3, 4), trade(97, 1, 1, 4)]);
}

#[test]
fn buy_aggressor_prices_do_not_fall() {
    let (mut g, mut e) = (OrderGateway::new(), MatchingEngine::new());
    feed(&mut g, &mut e, "SELL LIMIT 103 1");
    feed(&mut g, &mut e, "SELL LIMIT 101 1");
    let out = feed(&mut g, &mut e, "BUY MARKET 2");
    assert_eq!(out, vec![trade(101, 1, 3, 2), trade(103, 1, 3, 1)]);
}

#[test]
fn traded_quantity_is_conserved() {
    let (mut g, mut e) = (OrderGateway::new(), MatchingEngine::new());
    feed(&mut g, &mut e, "SELL LIMIT 10 4");
    feed(&mut g, &mut e, "SELL LIMIT 11 4");
    let out = feed(&mut g, &mut e, "BUY LIMIT 11 10");
    let traded: i64 = out
        .iter()
        .map(|ev| match ev {
            EngineEvent::Trade(t) => t.quantity,
            EngineEvent::Reject(_) => 0,
        })
        .sum();
    assert_eq!(traded, 8);
    assert_eq!(head(e.order_book(), Side::Buy), (3, 2));
}

#[test]
fn gateway_rejects_are_passed_through() {
    let (mut g, mut e) = (OrderGateway::new(), MatchingEngine::new());
    assert_eq!(feed(&mut g, &mut e, "BUY LIMIT 100 0"), vec![reject("quantity must be > 0")]);
    assert_eq!(feed(&mut g, &mut e, "SELL MARKET -3"), vec![reject("quantity must be > 0")]);
    assert_eq!(g.next_order_id(), 1);
    assert_eq!(g.next_sequence(), 1);
}

#[test]
fn gateway_checks_price_presence() {
    let mut g = OrderGateway::new();
    let limit = Command::NewOrder { side: Side::Buy, order_type: OrderType::Limit, price: None, quantity: 1 };
    assert_eq!(g.process_command(limit), GatewayEvent::Reject("limit order requires price".to_string()));
    let market = Command::NewOrder { side: Side::Sell, order_type: OrderType::Market, price: Some(5), quantity: 1 };
    assert_eq!(
        g.process_command(market),
        GatewayEvent::Reject("market order must not have price".to_string())
    );
    let ok = Command::NewOrder { side: Side::Sell, order_type: OrderType::Market, price: None, quantity: 1 };
    assert_eq!(
        g.process_command(ok),
        GatewayEvent::NewOrder(Order {
            id: 1,
            side: Side::Sell,
            order_type: OrderType::Market,
            price: None,
            quantity: 1,
            sequence: 1
        })
    );
    assert_eq!(g.process_command(Command::Cancel { order_id: 9 }), GatewayEvent::Cancel { order_id: 9 });
    assert_eq!(g.next_order_id(), 3);
    assert_eq!(g.next_sequence(), 3);
}

#[test]
fn engine_passes_reject_through() {
    let mut e = MatchingEngine::new();
    assert_eq!(e.on_event(GatewayEvent::Reject("bad".to_string())), vec![reject("bad")]);
}
