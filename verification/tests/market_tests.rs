use ordust::market::{DepthUpdate, MarketBook, Snapshot};
use ordust::{Price, Qty, Side};

#[test]
fn new_book_is_empty_at_zero() {
    let book = MarketBook::new();
    assert_eq!(book.last_update_id(), 0);
    assert_eq!(book.best_bid(), None);
    assert_eq!(book.best_ask(), None);
    assert!(book.depth(Side::Buy, 5).is_empty());
}

#[test]
fn snapshot_replaces_and_skips_zero_levels() {
    let mut book = MarketBook::new();
    book.apply_snapshot(Snapshot {
        last_update_id: 7,
        bids: vec![(Price(100), Qty(1)), (Price(102), Qty(0)), (Price(98), Qty(5))],
        asks: vec![(Price(105), Qty(2)), (Price(104), Qty(3))],
    });
    assert_eq!(book.last_update_id(), 7);
    assert_eq!(book.best_bid(), Some((Price(100), Qty(1))));
    assert_eq!(book.best_ask(), Some((Price(104), Qty(3))));
    assert_eq!(book.depth(Side::Buy, 10), vec![(Price(100), Qty(1)), (Price(98), Qty(5))]);
    assert_eq!(book.depth(Side::Sell, 1), vec![(Price(104), Qty(3))]);

    // A second snapshot clears what the first set.
    book.apply_snapshot(Snapshot { last_update_id: 9, bids: vec![], asks: vec![(Price(110), Qty(1))] });
    assert_eq!(book.best_bid(), None);
    assert_eq!(book.depth(Side::Sell, 10), vec![(Price(110), Qty(1))]);
    assert_eq!(book.last_update_id(), 9);
}

#[test]
fn diff_overwrites_and_removes_levels() {
    let mut book = MarketBook::new();
    book.apply_snapshot(Snapshot {
        last_update_id: 1,
        bids: vec![(Price(100), Qty(1)), (Price(99), Qty(2))],
        asks: vec![(Price(101), Qty(2))],
    });
    book.apply_diff(&DepthUpdate {
        first_update_id: 2,
        final_update_id: 4,
        bids: vec![(Price(100), Qty(0)), (Price(99), Qty(7)), (Price(97), Qty(1))],
        asks: vec![(Price(101), Qty(0)), (Price(103), Qty(6))],
    });
    assert_eq!(book.last_update_id(), 4);
    assert_eq!(book.depth(Side::Buy, 10), vec![(Price(99), Qty(7)), (Price(97), Qty(1))]);
    assert_eq!(book.depth(Side::Sell, 10), vec![(Price(103), Qty(6))]);
    // Removing a price that is not there changes nothing.
    book.apply_diff(&DepthUpdate { first_update_id: 5, final_update_id: 5, bids: vec![(Price(50), Qty(0))], asks: vec![] });
    assert_eq!(book.depth(Side::Buy, 10), vec![(Price(99), Qty(7)), (Price(97), Qty(1))]);
}

#[test]
fn applying_a_diff_twice_is_applying_it_once() {
    let mut once = MarketBook::new();
    once.apply_snapshot(Snapshot { last_update_id: 1, bids: vec![(Price(10), Qty(1))], asks: vec![(Price(12), Qty(4))] });
    let mut twice = once.clone();
    let u = DepthUpdate {
        first_update_id: 2,
        final_update_id: 3,
        bids: vec![(Price(10), Qty(5)), (Price(9), Qty(2)), (Price(9), Qty(0))],
        asks: vec![(Price(12), Qty(0)), (Price(13), Qty(1))],
    };
    once.apply_diff(&u);
    twice.apply_diff(&u);
    twice.apply_diff(&u);
    for side in [Side::Buy, Side::Sell] {
        assert_eq!(once.depth(side, usize::MAX), twice.depth(side, usize::MAX));
    }
    assert_eq!(once.last_update_id(), twice.last_update_id());
    assert_eq!(once.depth(Side::Buy, usize::MAX), vec![(Price(10), Qty(5))]);
}

#[test]
fn depth_is_a_prefix_of_full_depth_with_min_length() {
    let mut book = MarketBook::new();
    book.apply_snapshot(Snapshot {
        last_update_id: 1,
        bids: vec![(Price(10), Qty(1)), (Price(8), Qty(3)), (Price(9), Qty(2))],
        asks: vec![],
    });
    let full = book.depth(Side::Buy, usize::MAX);
    assert_eq!(full.len(), 3);
    for n in 0..6usize {
        let d = book.depth(Side::Buy, n);
        assert_eq!(d.len(), n.min(3));
        assert_eq!(&full[..d.len()], &d[..]);
        assert!(d.iter().all(|(_, q)| q.0 > 0));
    }
}
