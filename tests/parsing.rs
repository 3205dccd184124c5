use rust_matching_engine::order::{OrderType, Side};
use rust_matching_engine::parser::{parse_command, Command};

fn err(line: &str) -> String {
    parse_command(line).err().expect("parse fails")
}

#[test]
fn parses_limit_order_any_case() {
    assert_eq!(
        parse_command("  buy Limit 100 10 ").ok(),
        Some(Command::NewOrder { side: Side::Buy, order_type: OrderType::Limit, price: Some(100), quantity: 10 })
    );
}

#[test]
fn parses_market_order() {
    assert_eq!(
        parse_command("SELL\tMARKET +7").ok(),
        Some(Command::NewOrder { side: Side::Sell, order_type: OrderType::Market, price: None, quantity: 7 })
    );
}

#[test]
fn parses_cancel() {
    assert_eq!(parse_command("cancel 18446744073709551615").ok(), Some(Command::Cancel { order_id: u64::MAX }));
}

#[test]
fn parses_signed_extremes() {
    assert_eq!(
        parse_command("BUY LIMIT -9223372036854775808 9223372036854775807").ok(),
        Some(Command::NewOrder {
            side: Side::Buy,
            order_type: OrderType::Limit,
            price: Some(i64::MIN),
            quantity: i64::MAX
        })
    );
}

#[test]
fn reports_parse_errors() {
    assert_eq!(err("   "), "Empty command");
    assert_eq!(err("HOLD 1"), "Unknown command");
    assert_eq!(err("BUY LIMIT"), "Invalid order format");
    assert_eq!(err("BUY STOP 1 2"), "Invalid order type");
    assert_eq!(err("BUY LIMIT 1"), "Invalid limit order format");
    assert_eq!(err("BUY LIMIT x 1"), "invalid price");
    assert_eq!(err("BUY LIMIT 1 1.5"), "invalid quantity");
    assert_eq!(err("SELL MARKET 1 2"), "MARKET order requires quantity only");
    assert_eq!(err("SELL MARKET -"), "invalid quantity");
    assert_eq!(err("CANCEL"), "CANCEL requires order_id");
    assert_eq!(err("CANCEL -1"), "invalid order id");
}

#[test]
fn rejects_overflowing_numbers() {
    assert_eq!(err("BUY LIMIT 9223372036854775808 1"), "invalid price");
    assert_eq!(err("BUY MARKET 99999999999999999999999"), "invalid quantity");
    assert_eq!(err("CANCEL 18446744073709551616"), "invalid order id");
}
