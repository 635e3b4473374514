use ordust::price_level::{Level, OrderNode};
use ordust::{Order, OrderId, OrderType, Price, Qty, Side, TimeInForce, Timestamp};
use slab::Slab;

fn make_test_order(id: u64, qty: u64) -> Order {
    Order {
        id: OrderId(id),
        side: Side::Buy,
        order_type: OrderType::Limit,
        tif: TimeInForce::GTC,
        price: Some(Price(100)),
        qty: Qty(qty),
        remaining_qty: Qty(qty),
        timestamp: Timestamp(id),
    }
}

#[test]
fn test_remove_middle_order_splices_neighbors() {
    let mut level = Level::new(Price(100));
    let mut arena: Slab<OrderNode> = Slab::new();

    let id1 = level.push_back(&mut arena, make_test_order(1, 10));
    let id2 = level.push_back(&mut arena, make_test_order(2, 20));
    let id3 = level.push_back(&mut arena, make_test_order(3, 30));

    assert_eq!(level.total_qty(), Qty(60));

    let cancelled = level.remove(&mut arena, id2);

    assert_eq!(cancelled.map(|o| o.id), Some(OrderId(2)));
    assert_eq!(level.total_qty(), Qty(40));

    assert_eq!(level.head(), Some(id1));
    assert_eq!(level.tail(), Some(id3));

    assert!(arena.get(id2.0).is_none());

    let node1 = arena.get(id1.0).expect("head node should exist");
    assert_eq!(node1.prev(), None);
    assert_eq!(node1.next(), Some(id3));

    let node3 = arena.get(id3.0).expect("tail node should exist");
    assert_eq!(node3.prev(), Some(id1));
    assert_eq!(node3.next(), None);

    let pop1 = level.pop_front(&mut arena);
    assert_eq!(pop1.map(|o| o.id), Some(OrderId(1)));

    let pop2 = level.pop_front(&mut arena);
    assert_eq!(pop2.map(|o| o.id), Some(OrderId(3)));

    assert!(level.is_empty());
}

#[test]
fn push_back_then_pop_front_is_first_in_first_out() {
    let mut level = Level::new(Price(100));
    let mut arena: Slab<OrderNode> = Slab::new();
    for id in 1..=4u64 {
        level.push_back(&mut arena, make_test_order(id, id * 10));
    }
    assert_eq!(level.total_qty(), Qty(100));
    assert_eq!(level.front(&arena).map(|o| o.id), Some(OrderId(1)));
    for id in 1..=4u64 {
        assert_eq!(level.pop_front(&mut arena).map(|o| o.id), Some(OrderId(id)));
    }
    assert!(level.pop_front(&mut arena).is_none());
    assert!(level.is_empty());
    assert_eq!(level.head(), None);
    assert_eq!(level.tail(), None);
    assert!(arena.is_empty());
}

#[test]
fn remove_tail_rewinds_the_tail() {
    let mut level = Level::new(Price(100));
    let mut arena: Slab<OrderNode> = Slab::new();
    let id1 = level.push_back(&mut arena, make_test_order(1, 10));
    let id2 = level.push_back(&mut arena, make_test_order(2, 20));
    let id3 = level.push_back(&mut arena, make_test_order(3, 30));
    assert_eq!(level.remove(&mut arena, id3).map(|o| o.id), Some(OrderId(3)));
    assert_eq!(level.tail(), Some(id2));
    assert_eq!(arena.get(id2.0).expect("new tail").next(), None);
    assert_eq!(level.head(), Some(id1));
    assert_eq!(level.total_qty(), Qty(30));
}

#[test]
fn remove_head_and_unknown_node() {
    let mut level = Level::new(Price(100));
    let mut arena: Slab<OrderNode> = Slab::new();
    let id1 = level.push_back(&mut arena, make_test_order(1, 10));
    let id2 = level.push_back(&mut arena, make_test_order(2, 20));
    assert_eq!(level.remove(&mut arena, id1).map(|o| o.id), Some(OrderId(1)));
    assert_eq!(level.head(), Some(id2));
    assert_eq!(arena.get(id2.0).expect("new head").prev(), None);
    // A key that holds no node leaves the level unchanged.
    assert!(level.remove(&mut arena, id1).is_none());
    assert_eq!(level.total_qty(), Qty(20));
}

#[test]
fn get_order_by_id_reads_the_arena() {
    let mut level = Level::new(Price(100));
    let mut arena: Slab<OrderNode> = Slab::new();
    let id1 = level.push_back(&mut arena, make_test_order(7, 10));
    assert_eq!(level.get_order_by_id(id1, &arena).map(|o| o.id), Some(OrderId(7)));
    assert_eq!(level.get_order_by_ID(id1, &arena).map(|o| o.remaining_qty), Some(Qty(10)));
    level.pop_front(&mut arena);
    assert!(level.get_order_by_id(id1, &arena).is_none());
}

#[test]
fn consume_qty_partial_then_full() {
    let mut level = Level::new(Price(100));
    let mut arena: Slab<OrderNode> = Slab::new();
    level.push_back(&mut arena, make_test_order(1, 10));
    level.push_back(&mut arena, make_test_order(2, 5));

    // Partial fill of the front order: it stays at the front.
    assert_eq!(level.consume_qty(Qty(4), &mut arena), Some((OrderId(1), Qty(4), false)));
    assert_eq!(level.total_qty(), Qty(11));
    assert_eq!(level.front(&arena).map(|o| o.remaining_qty), Some(Qty(6)));

    // A fill larger than the front order takes only what it has and pops it.
    assert_eq!(level.consume_qty(Qty(100), &mut arena), Some((OrderId(1), Qty(6), true)));
    assert_eq!(level.total_qty(), Qty(5));
    assert_eq!(level.front(&arena).map(|o| o.id), Some(OrderId(2)));

    assert_eq!(level.consume_qty(Qty(5), &mut arena), Some((OrderId(2), Qty(5), true)));
    assert!(level.is_empty());
    assert_eq!(level.consume_qty(Qty(1), &mut arena), None);
}
