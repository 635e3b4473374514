use ordust::engine::Engine;
use ordust::{BookEvent, EngineError, Order, OrderId, OrderType, Price, Qty, Side, TimeInForce, Timestamp, Trade};

fn make_order(
    id: u64,
    side: Side,
    price: u64,
    qty: u64,
    timestamp: u64,
    ordtype: OrderType,
    tiftype: TimeInForce,
) -> Order {
    Order {
        id: OrderId(id),
        side,
        order_type: ordtype,
        tif: tiftype,
        price: Some(Price(price)),
        qty: Qty(qty),
        remaining_qty: Qty(qty),
        timestamp: Timestamp(timestamp),
    }
}

fn market_order(id: u64, side: Side, qty: u64, tif: TimeInForce) -> Order {
    Order {
        id: OrderId(id),
        side,
        order_type: OrderType::Market,
        tif,
        price: None,
        qty: Qty(qty),
        remaining_qty: Qty(qty),
        timestamp: Timestamp(id),
    }
}

fn trades(events: &[BookEvent]) -> Vec<Trade> {
    events
        .iter()
        .filter_map(|e| match e {
            BookEvent::Trade(t) => Some(*t),
            _ => None,
        })
        .collect()
}

#[test]
fn can_use_make_order_from_book_tests() {
    let order = make_order(1, Side::Buy, 100, 10, 1, OrderType::Limit, TimeInForce::GTC);

    assert_eq!(order.id, OrderId(1));
    assert_eq!(order.side, Side::Buy);
    assert_eq!(order.price, Some(Price(100)));
    assert_eq!(order.qty, Qty(10));
}

#[test]
fn test_limit_resting_order_no_cross() -> Result<(), EngineError> {
    let mut idcount = 0;
    let mut engine = Engine::new();
    let order = make_order(idcount, Side::Buy, 100, 10, 1, OrderType::Limit, TimeInForce::GTC);
    let mut results = engine.submit_order(order)?;
    assert_eq!(engine.book().best_bid(), Some(Price(100)));
    idcount += 1;
    let order = make_order(idcount, Side::Sell, 100, 8, 2, OrderType::Limit, TimeInForce::GTC);
    results.extend(engine.submit_order(order)?);

    println!("{:?}", results);
    println!("{:?}", engine.book().depth(Side::Buy, usize::MAX));
    Ok(())
}

#[test]
fn test_market_order_insufficient_liquidity() -> Result<(), EngineError> {
    let mut idcount = 0;
    let mut engine = Engine::new();
    let order = make_order(idcount, Side::Buy, 100, 10, 1, OrderType::Limit, TimeInForce::GTC);
    let mut results = engine.submit_order(order)?;
    assert_eq!(engine.book().best_bid(), Some(Price(100)));
    idcount += 1;
    let order = make_order(idcount, Side::Sell, 100, 12, 2, OrderType::Market, TimeInForce::IOC);
    results.extend(engine.submit_order(order)?);

    println!("{:?}", results);
    println!("{:?}", engine.book().depth(Side::Buy, usize::MAX));
    Ok(())
}

#[test]
fn resting_limit_appears_in_depth_with_events() {
    let mut engine = Engine::new();
    let events = engine.submit_order(make_order(1, Side::Buy, 100, 10, 1, OrderType::Limit, TimeInForce::GTC)).unwrap();
    assert_eq!(
        events,
        vec![
            BookEvent::Accepted { order_id: OrderId(1) },
            BookEvent::RestingOnBook { order_id: OrderId(1), price: Price(100), remaining_qty: Qty(10) },
        ]
    );
    assert_eq!(engine.book().depth(Side::Buy, 5), vec![(Price(100), Qty(10))]);
}

#[test]
fn full_cross_trades_and_nothing_rests() {
    let mut engine = Engine::new();
    engine.submit_order(make_order(1, Side::Sell, 100, 10, 1, OrderType::Limit, TimeInForce::GTC)).unwrap();
    let events = engine.submit_order(make_order(2, Side::Buy, 101, 10, 2, OrderType::Limit, TimeInForce::GTC)).unwrap();
    assert_eq!(
        events,
        vec![
            BookEvent::Accepted { order_id: OrderId(2) },
            BookEvent::Trade(Trade {
                maker_order_id: OrderId(1),
                taker_order_id: OrderId(2),
                price: Price(100),
                qty: Qty(10),
                timestamp: Timestamp(2),
            }),
        ]
    );
    assert!(engine.book().get_order(OrderId(2)).is_none());
    assert!(engine.book().get_order(OrderId(1)).is_none());
    assert_eq!(engine.book().best_bid(), None);
    assert_eq!(engine.book().best_ask(), None);
}

#[test]
fn partial_cross_rests_remainder_at_own_price() {
    let mut engine = Engine::new();
    engine.submit_order(make_order(1, Side::Sell, 100, 4, 1, OrderType::Limit, TimeInForce::GTC)).unwrap();
    let events = engine.submit_order(make_order(2, Side::Buy, 102, 10, 2, OrderType::Limit, TimeInForce::GTC)).unwrap();
    assert_eq!(events.len(), 3);
    assert_eq!(trades(&events).iter().map(|t| (t.price, t.qty)).collect::<Vec<_>>(), vec![(Price(100), Qty(4))]);
    assert_eq!(
        events[2],
        BookEvent::RestingOnBook { order_id: OrderId(2), price: Price(102), remaining_qty: Qty(6) }
    );
    let rested = engine.book().get_order(OrderId(2)).copied().expect("remainder rests");
    assert_eq!(rested.remaining_qty, Qty(6));
    assert_eq!(rested.qty, Qty(10));
    assert_eq!(engine.book().best_bid(), Some(Price(102)));
    assert_eq!(engine.book().best_ask(), None);
}

#[test]
fn market_order_fills_available_and_discards_rest() {
    let mut engine = Engine::new();
    engine.submit_order(make_order(1, Side::Buy, 100, 10, 1, OrderType::Limit, TimeInForce::GTC)).unwrap();
    let events = engine.submit_order(market_order(2, Side::Sell, 12, TimeInForce::IOC)).unwrap();
    let ts = trades(&events);
    assert_eq!(ts.len(), 1);
    assert_eq!(ts[0].qty, Qty(10));
    assert_eq!(ts[0].price, Price(100));
    assert_eq!(events.last(), Some(&BookEvent::Cancelled { order_id: OrderId(2) }));
    assert!(engine.book().get_order(OrderId(2)).is_none());
    assert_eq!(engine.book().best_bid(), None);
    assert_eq!(engine.book().best_ask(), None);
}

#[test]
fn market_order_on_empty_book_is_cancelled() {
    let mut engine = Engine::new();
    let events = engine.submit_order(market_order(1, Side::Buy, 5, TimeInForce::IOC)).unwrap();
    assert_eq!(
        events,
        vec![BookEvent::Accepted { order_id: OrderId(1) }, BookEvent::Cancelled { order_id: OrderId(1) }]
    );
}

#[test]
fn ioc_partial_fill_discards_remainder() {
    let mut engine = Engine::new();
    engine.submit_order(make_order(1, Side::Sell, 100, 3, 1, OrderType::Limit, TimeInForce::GTC)).unwrap();
    engine.submit_order(make_order(2, Side::Sell, 105, 3, 2, OrderType::Limit, TimeInForce::GTC)).unwrap();
    let events = engine.submit_order(make_order(3, Side::Buy, 101, 10, 3, OrderType::Limit, TimeInForce::IOC)).unwrap();
    let ts = trades(&events);
    assert_eq!(ts.len(), 1);
    assert_eq!(ts[0].maker_order_id, OrderId(1));
    assert_eq!(events.last(), Some(&BookEvent::Cancelled { order_id: OrderId(3) }));
    assert!(engine.book().get_order(OrderId(3)).is_none());
    // The ask beyond the limit is untouched.
    assert_eq!(engine.book().depth(Side::Sell, 5), vec![(Price(105), Qty(3))]);
    assert_eq!(engine.book().best_bid(), None);
}

#[test]
fn fok_insufficient_liquidity_changes_nothing() {
    let mut engine = Engine::new();
    engine.submit_order(make_order(1, Side::Sell, 100, 4, 1, OrderType::Limit, TimeInForce::GTC)).unwrap();
    engine.submit_order(make_order(2, Side::Sell, 110, 10, 2, OrderType::Limit, TimeInForce::GTC)).unwrap();
    let before = engine.book().depth(Side::Sell, 10);
    // Only 4 lots are within the limit of 105.
    let r = engine.submit_order(make_order(3, Side::Buy, 105, 5, 3, OrderType::Limit, TimeInForce::FOK));
    assert_eq!(r, Err(EngineError::FokNotFillable));
    assert_eq!(engine.book().depth(Side::Sell, 10), before);
    assert!(engine.book().depth(Side::Buy, 10).is_empty());
}

#[test]
fn fok_sufficient_liquidity_fills_completely() {
    let mut engine = Engine::new();
    engine.submit_order(make_order(1, Side::Sell, 100, 4, 1, OrderType::Limit, TimeInForce::GTC)).unwrap();
    engine.submit_order(make_order(2, Side::Sell, 101, 4, 2, OrderType::Limit, TimeInForce::GTC)).unwrap();
    engine.submit_order(make_order(3, Side::Sell, 102, 4, 3, OrderType::Limit, TimeInForce::GTC)).unwrap();
    let events = engine.submit_order(make_order(4, Side::Buy, 102, 10, 4, OrderType::Limit, TimeInForce::FOK)).unwrap();
    let ts = trades(&events);
    assert_eq!(ts.iter().map(|t| t.qty.0).sum::<u64>(), 10);
    assert_eq!(
        ts.iter().map(|t| (t.maker_order_id, t.price, t.qty)).collect::<Vec<_>>(),
        vec![(OrderId(1), Price(100), Qty(4)), (OrderId(2), Price(101), Qty(4)), (OrderId(3), Price(102), Qty(2))]
    );
    // Acceptance and trades only.
    assert_eq!(events.len(), 4);
    assert!(engine.book().get_order(OrderId(4)).is_none());
    assert_eq!(engine.book().depth(Side::Sell, 10), vec![(Price(102), Qty(2))]);
}

#[test]
fn market_fok_uses_all_prices() {
    let mut engine = Engine::new();
    engine.submit_order(make_order(1, Side::Buy, 100, 4, 1, OrderType::Limit, TimeInForce::GTC)).unwrap();
    engine.submit_order(make_order(2, Side::Buy, 90, 4, 2, OrderType::Limit, TimeInForce::GTC)).unwrap();
    assert_eq!(engine.submit_order(market_order(3, Side::Sell, 9, TimeInForce::FOK)), Err(EngineError::FokNotFillable));
    let events = engine.submit_order(market_order(4, Side::Sell, 8, TimeInForce::FOK)).unwrap();
    assert_eq!(trades(&events).iter().map(|t| t.price).collect::<Vec<_>>(), vec![Price(100), Price(90)]);
    assert_eq!(engine.book().best_bid(), None);
}

#[test]
fn price_time_priority_first_in_first_filled() {
    let mut engine = Engine::new();
    engine.submit_order(make_order(1, Side::Sell, 100, 5, 1, OrderType::Limit, TimeInForce::GTC)).unwrap();
    engine.submit_order(make_order(2, Side::Sell, 100, 5, 2, OrderType::Limit, TimeInForce::GTC)).unwrap();
    engine.submit_order(make_order(3, Side::Sell, 99, 5, 3, OrderType::Limit, TimeInForce::GTC)).unwrap();
    let events = engine.submit_order(make_order(4, Side::Buy, 100, 7, 4, OrderType::Limit, TimeInForce::GTC)).unwrap();
    let ts = trades(&events);
    // Better price first (99), then the older order at 100; each at the maker's price.
    assert_eq!(
        ts.iter().map(|t| (t.maker_order_id, t.price, t.qty)).collect::<Vec<_>>(),
        vec![(OrderId(3), Price(99), Qty(5)), (OrderId(1), Price(100), Qty(2))]
    );
    assert_eq!(engine.book().get_order(OrderId(1)).map(|o| o.remaining_qty), Some(Qty(3)));
    assert_eq!(engine.book().get_order(OrderId(2)).map(|o| o.remaining_qty), Some(Qty(5)));
}

#[test]
fn validation_errors() {
    let mut engine = Engine::new();
    assert_eq!(
        engine.submit_order(make_order(1, Side::Buy, 100, 0, 1, OrderType::Limit, TimeInForce::GTC)),
        Err(EngineError::ZeroQty)
    );
    let mut no_price = make_order(2, Side::Buy, 100, 5, 1, OrderType::Limit, TimeInForce::GTC);
    no_price.price = None;
    assert_eq!(engine.submit_order(no_price), Err(EngineError::MissingPrice));
    assert_eq!(
        engine.submit_order(market_order(3, Side::Buy, 5, TimeInForce::GTC)),
        Err(EngineError::InvalidTifForMarket)
    );
    engine.submit_order(make_order(4, Side::Buy, 100, 5, 1, OrderType::Limit, TimeInForce::GTC)).unwrap();
    assert_eq!(
        engine.submit_order(make_order(4, Side::Buy, 99, 5, 2, OrderType::Limit, TimeInForce::GTC)),
        Err(EngineError::DuplicateOrderId(OrderId(4)))
    );
    assert_eq!(engine.book().depth(Side::Buy, 10), vec![(Price(100), Qty(5))]);
}

#[test]
fn cancel_resting_and_unknown() {
    let mut engine = Engine::new();
    engine.submit_order(make_order(1, Side::Buy, 100, 5, 1, OrderType::Limit, TimeInForce::GTC)).unwrap();
    engine.submit_order(make_order(2, Side::Buy, 100, 7, 2, OrderType::Limit, TimeInForce::GTC)).unwrap();
    assert_eq!(engine.cancel_order(OrderId(1)), Ok(vec![BookEvent::Cancelled { order_id: OrderId(1) }]));
    assert!(engine.book().get_order(OrderId(1)).is_none());
    assert_eq!(engine.book().depth(Side::Buy, 10), vec![(Price(100), Qty(7))]);
    assert_eq!(engine.cancel_order(OrderId(1)), Err(EngineError::OrderNotFound(OrderId(1))));
    assert_eq!(engine.cancel_order(OrderId(42)), Err(EngineError::OrderNotFound(OrderId(42))));
    assert_eq!(engine.book().depth(Side::Buy, 10), vec![(Price(100), Qty(7))]);
}

#[test]
fn submit_then_cancel_restores_the_book() {
    let mut engine = Engine::new();
    engine.submit_order(make_order(1, Side::Buy, 100, 5, 1, OrderType::Limit, TimeInForce::GTC)).unwrap();
    engine.submit_order(make_order(2, Side::Sell, 103, 5, 2, OrderType::Limit, TimeInForce::GTC)).unwrap();
    let bids = engine.book().depth(Side::Buy, 10);
    let asks = engine.book().depth(Side::Sell, 10);
    engine.submit_order(make_order(3, Side::Buy, 100, 9, 3, OrderType::Limit, TimeInForce::GTC)).unwrap();
    engine.cancel_order(OrderId(3)).unwrap();
    assert_eq!(engine.book().depth(Side::Buy, 10), bids);
    assert_eq!(engine.book().depth(Side::Sell, 10), asks);
}

#[test]
fn book_never_crosses_and_quantity_is_conserved() {
    let mut engine = Engine::new();
    let mut next_id = 0u64;
    let prices = [100u64, 103, 98, 101, 99, 104, 100, 102];
    for (k, p) in prices.iter().enumerate() {
        let side = if k % 2 == 0 { Side::Buy } else { Side::Sell };
        next_id += 1;
        let qty = 3 + (k as u64 % 4);
        let events = engine.submit_order(make_order(next_id, side, *p, qty, next_id, OrderType::Limit, TimeInForce::GTC)).unwrap();
        let traded: u64 = trades(&events).iter().map(|t| t.qty.0).sum();
        let rested = engine.book().get_order(OrderId(next_id)).map(|o| o.remaining_qty.0).unwrap_or(0);
        assert_eq!(traded + rested, qty);
        if let (Some(b), Some(a)) = (engine.book().best_bid(), engine.book().best_ask()) {
            assert!(b < a);
        }
    }
}

#[test]
fn quantities_fit_detects_overflow() {
    let mut engine = Engine::new();
    engine.submit_order(make_order(1, Side::Sell, 100, u64::MAX - 1, 1, OrderType::Limit, TimeInForce::GTC)).unwrap();
    engine.submit_order(make_order(2, Side::Sell, 101, 5, 2, OrderType::Limit, TimeInForce::GTC)).unwrap();
    // Resting one more lot at 100 on the same side would overflow the level total.
    assert!(!engine.quantities_fit(&make_order(3, Side::Sell, 100, 2, 3, OrderType::Limit, TimeInForce::GTC)));
    assert!(engine.quantities_fit(&make_order(3, Side::Sell, 100, 1, 3, OrderType::Limit, TimeInForce::GTC)));
    // A fill-or-kill buy that needs both levels would add past u64::MAX.
    assert!(!engine.quantities_fit(&make_order(4, Side::Buy, 101, u64::MAX, 4, OrderType::Limit, TimeInForce::FOK)));
    // One that the first level covers never adds the second.
    assert!(engine.quantities_fit(&make_order(5, Side::Buy, 101, 10, 5, OrderType::Limit, TimeInForce::FOK)));
    // Refused orders and immediate-or-cancel ones compute nothing that could overflow.
    assert!(engine.quantities_fit(&make_order(1, Side::Sell, 100, 2, 6, OrderType::Limit, TimeInForce::GTC)));
    assert!(engine.quantities_fit(&make_order(7, Side::Buy, 101, u64::MAX, 7, OrderType::Limit, TimeInForce::IOC)));
}

#[test]
fn profile_workload_rests_and_cancels() {
    let mut engine = Engine::new();
    for id in 0..50u64 {
        let order = ordust::workload::make_profile_order(id);
        assert_eq!(order.price, Some(Price(100)));
        assert_eq!(order.timestamp, Timestamp(id));
        assert!(engine.quantities_fit(&order));
        engine.submit_order(order).unwrap();
    }
    assert_eq!(engine.book().depth(Side::Buy, 1), vec![(Price(100), Qty(500))]);
    for id in 0..50u64 {
        engine.cancel_order(OrderId(id)).unwrap();
    }
    assert_eq!(engine.book().best_bid(), None);
}

#[test]
fn ioc_trades_the_smaller_of_quantity_and_liquidity() {
    let mut engine = Engine::new();
    engine.submit_order(make_order(1, Side::Sell, 100, 3, 1, OrderType::Limit, TimeInForce::GTC)).unwrap();
    engine.submit_order(make_order(2, Side::Sell, 101, 4, 2, OrderType::Limit, TimeInForce::GTC)).unwrap();
    engine.submit_order(make_order(3, Side::Sell, 110, 9, 3, OrderType::Limit, TimeInForce::GTC)).unwrap();
    // 7 lots are within 101; the order wants 5.
    let events = engine.submit_order(make_order(4, Side::Buy, 101, 5, 4, OrderType::Limit, TimeInForce::IOC)).unwrap();
    assert_eq!(trades(&events).iter().map(|t| t.qty.0).sum::<u64>(), 5);
    assert_eq!(events.len(), 3);
    // 2 lots are left within 101; the order wants 6: it gets 2 and the rest is cancelled.
    let events = engine.submit_order(make_order(5, Side::Buy, 101, 6, 5, OrderType::Limit, TimeInForce::IOC)).unwrap();
    assert_eq!(trades(&events).iter().map(|t| t.qty.0).sum::<u64>(), 2);
    assert_eq!(events.last(), Some(&BookEvent::Cancelled { order_id: OrderId(5) }));
    assert_eq!(engine.book().depth(Side::Sell, 10), vec![(Price(110), Qty(9))]);
}
