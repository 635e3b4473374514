use ordust::book::OrderBook;
use ordust::{FillResult, Order, OrderId, OrderType, Price, Qty, Side, TimeInForce, Timestamp};

fn make_order(
    id: u64,
    side: Side,
    price: u64,
    qty: u64,
    timestamp: u64,
    ordtype: OrderType,
    tiftype: TimeInForce,
) -> Order {
    Order {
        id: OrderId(id),
        side,
        order_type: ordtype,
        tif: tiftype,
        price: Some(Price(price)),
        qty: Qty(qty),
        remaining_qty: Qty(qty),
        timestamp: Timestamp(timestamp),
    }
}

#[test]
fn insert_resting_adds_buy_order_to_the_bid_level() {
    let mut book = OrderBook::new();

    let order = make_order(1, Side::Buy, 100, 10, 1, OrderType::Limit, TimeInForce::GTC);
    book.insert_resting(order);

    assert_eq!(book.best_bid(), Some(Price(100)));
    assert_eq!(book.best_ask(), None);

    assert_eq!(book.depth(Side::Buy, 10), vec![(Price(100), Qty(10))]);
    assert!(book.depth(Side::Sell, 10).is_empty());

    let order = make_order(3, Side::Sell, 120, 10, 1, OrderType::Limit, TimeInForce::GTC);
    book.insert_resting(order);
    assert_eq!(book.get_order(OrderId(3)).is_some(), true);

    book.remove_order(OrderId(3));

    assert_eq!(book.get_order(OrderId(3)).is_some(), false);

    let order = make_order(4, Side::Sell, 130, 10, 1, OrderType::Limit, TimeInForce::GTC);
    book.insert_resting(order.clone());

    println!("{:#?}", book.depth(Side::Buy, usize::MAX));
}

#[test]
fn best_prices_spread_and_depth_order() {
    let mut book = OrderBook::new();
    assert_eq!(book.spread(), None);
    book.insert_resting(make_order(1, Side::Buy, 99, 5, 1, OrderType::Limit, TimeInForce::GTC));
    book.insert_resting(make_order(2, Side::Buy, 101, 7, 2, OrderType::Limit, TimeInForce::GTC));
    book.insert_resting(make_order(3, Side::Buy, 101, 3, 3, OrderType::Limit, TimeInForce::GTC));
    book.insert_resting(make_order(4, Side::Sell, 105, 4, 4, OrderType::Limit, TimeInForce::GTC));
    book.insert_resting(make_order(5, Side::Sell, 103, 6, 5, OrderType::Limit, TimeInForce::GTC));

    assert_eq!(book.best_bid(), Some(Price(101)));
    assert_eq!(book.best_ask(), Some(Price(103)));
    assert_eq!(book.spread(), Some(Price(2)));

    // Bids highest first, asks lowest first, each level with its total.
    assert_eq!(book.depth(Side::Buy, 10), vec![(Price(101), Qty(10)), (Price(99), Qty(5))]);
    assert_eq!(book.depth(Side::Sell, 10), vec![(Price(103), Qty(6)), (Price(105), Qty(4))]);
    assert_eq!(book.depth(Side::Buy, 1), vec![(Price(101), Qty(10))]);
    assert!(book.depth(Side::Sell, 0).is_empty());

    let levels = book.iter_side(Side::Sell);
    assert_eq!(levels.len(), 2);
    assert_eq!(levels[0].0, Price(103));
    assert_eq!(levels[0].1.total_qty(), Qty(6));
    assert_eq!(levels[1].0, Price(105));
}

#[test]
fn spread_is_none_when_not_positive() {
    let mut book = OrderBook::new();
    book.insert_resting(make_order(1, Side::Buy, 100, 5, 1, OrderType::Limit, TimeInForce::GTC));
    book.insert_resting(make_order(2, Side::Sell, 100, 5, 2, OrderType::Limit, TimeInForce::GTC));
    assert_eq!(book.spread(), None);
}

#[test]
fn match_at_best_fills_front_order_first() {
    let mut book = OrderBook::new();
    book.insert_resting(make_order(1, Side::Sell, 100, 5, 1, OrderType::Limit, TimeInForce::GTC));
    book.insert_resting(make_order(2, Side::Sell, 100, 5, 2, OrderType::Limit, TimeInForce::GTC));
    book.insert_resting(make_order(3, Side::Sell, 101, 5, 3, OrderType::Limit, TimeInForce::GTC));

    let fill = book.match_at_best(Side::Sell, Qty(3));
    assert_eq!(
        fill,
        Some(FillResult { maker_order_id: OrderId(1), price: Price(100), filled_qty: Qty(3), maker_fully_filled: false })
    );
    assert_eq!(book.get_order(OrderId(1)).map(|o| o.remaining_qty), Some(Qty(2)));

    let fill = book.match_at_best(Side::Sell, Qty(10));
    assert_eq!(
        fill,
        Some(FillResult { maker_order_id: OrderId(1), price: Price(100), filled_qty: Qty(2), maker_fully_filled: true })
    );
    assert!(book.get_order(OrderId(1)).is_none());

    let fill = book.match_at_best(Side::Sell, Qty(5));
    assert_eq!(fill.map(|f| (f.maker_order_id, f.maker_fully_filled)), Some((OrderId(2), true)));
    // The emptied level is gone; the next best ask is 101.
    assert_eq!(book.best_ask(), Some(Price(101)));
    assert_eq!(book.match_at_best(Side::Buy, Qty(5)), None);
}

#[test]
fn remove_order_updates_level_total_and_drops_empty_level() {
    let mut book = OrderBook::new();
    book.insert_resting(make_order(1, Side::Buy, 100, 5, 1, OrderType::Limit, TimeInForce::GTC));
    book.insert_resting(make_order(2, Side::Buy, 100, 7, 2, OrderType::Limit, TimeInForce::GTC));

    let removed = book.remove_order(OrderId(1));
    assert_eq!(removed.map(|o| o.id), Some(OrderId(1)));
    assert_eq!(book.depth(Side::Buy, 10), vec![(Price(100), Qty(7))]);
    assert!(book.remove_order(OrderId(1)).is_none());

    book.remove_order(OrderId(2));
    assert_eq!(book.best_bid(), None);
    assert!(book.depth(Side::Buy, 10).is_empty());
}

#[test]
fn best_level_and_prune_empty() {
    let mut book = OrderBook::new();
    assert!(book.best_level(Side::Buy).is_none());
    book.insert_resting(make_order(1, Side::Buy, 100, 5, 1, OrderType::Limit, TimeInForce::GTC));
    book.insert_resting(make_order(2, Side::Buy, 102, 6, 2, OrderType::Limit, TimeInForce::GTC));
    let level = book.best_level(Side::Buy).expect("a bid level");
    assert_eq!(level.total_qty(), Qty(6));
    // Pruning a level that still holds orders changes nothing.
    book.prune_empty(Side::Buy, Price(102));
    assert_eq!(book.best_bid(), Some(Price(102)));
    book.prune_empty(Side::Sell, Price(7));
    assert_eq!(book.depth(Side::Buy, 10), vec![(Price(102), Qty(6)), (Price(100), Qty(5))]);
}

#[test]
fn insert_then_remove_restores_the_book() {
    let mut book = OrderBook::new();
    book.insert_resting(make_order(1, Side::Buy, 100, 5, 1, OrderType::Limit, TimeInForce::GTC));
    book.insert_resting(make_order(2, Side::Sell, 105, 5, 2, OrderType::Limit, TimeInForce::GTC));
    let bids = book.depth(Side::Buy, usize::MAX);
    let asks = book.depth(Side::Sell, usize::MAX);
    for (id, price) in [(3u64, 100u64), (4, 98)] {
        let order = make_order(id, Side::Buy, price, 7, id, OrderType::Limit, TimeInForce::GTC);
        book.insert_resting(order);
        assert_eq!(book.remove_order(OrderId(id)), Some(order));
        assert!(book.get_order(OrderId(id)).is_none());
        assert_eq!(book.depth(Side::Buy, usize::MAX), bids);
        assert_eq!(book.depth(Side::Sell, usize::MAX), asks);
        assert_eq!(book.best_bid(), Some(Price(100)));
        assert_eq!(book.best_ask(), Some(Price(105)));
    }
}
