use ordust::feed::{HyperliquidAdapter, RawMessage};
use ordust::{Price, Qty, Timestamp};

#[test]
fn subscription_payload_names_the_coin() {
    let adapter = HyperliquidAdapter::new("ETH");
    assert_eq!(adapter.coin, "ETH");
    assert_eq!(
        adapter.subscription_payload(),
        Some(r#"{"method":"subscribe","subscription":{"type":"l2Book","coin":"ETH"}}"#.to_string())
    );
}

#[test]
fn book_message_uses_nanosecond_time_as_update_id() {
    let msg = HyperliquidAdapter::book_message(1_700, vec![(Price(5), Qty(1))], vec![]);
    match msg {
        RawMessage::Diff(d) => {
            assert_eq!(d.first_update_id, 1_700_000_000);
            assert_eq!(d.final_update_id, 1_700_000_000);
            assert_eq!(d.bids, vec![(Price(5), Qty(1))]);
            assert!(d.asks.is_empty());
        }
        RawMessage::Trade(_) => panic!("expected a diff"),
    }
    // The conversion saturates instead of overflowing.
    match HyperliquidAdapter::book_message(u64::MAX / 10, vec![], vec![]) {
        RawMessage::Diff(d) => assert_eq!(d.first_update_id, u64::MAX),
        RawMessage::Trade(_) => panic!("expected a diff"),
    }
}

#[test]
fn trade_message_marks_ask_taker_as_buyer_maker() {
    for (side, expected) in [("A", true), ("SELL", true), ("B", false), ("", false), ("a", false)] {
        match HyperliquidAdapter::trade_message(Price(10), Qty(3), 42, side) {
            RawMessage::Trade(t) => {
                assert_eq!(t.is_buyer_maker, expected, "side {side:?}");
                assert_eq!(t.price, Price(10));
                assert_eq!(t.qty, Qty(3));
                assert_eq!(t.timestamp, Timestamp(42_000_000));
            }
            RawMessage::Diff(_) => panic!("expected a trade"),
        }
    }
}

#[test]
fn trade_timestamp_saturates() {
    match HyperliquidAdapter::trade_message(Price(1), Qty(1), u64::MAX / 10, "B") {
        RawMessage::Trade(t) => assert_eq!(t.timestamp, Timestamp(u64::MAX)),
        RawMessage::Diff(_) => panic!("expected a trade"),
    }
}
