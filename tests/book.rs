use order_book::book::OrderBook;
use order_book::error::BookError;
use order_book::order::{Order, OrderType};

fn order(id: u128, side: OrderType, size: u64) -> Order {
    Order::with_identity(id, side, size, 0).unwrap()
}

fn sizes_at(book: &OrderBook, side: OrderType, price: u64) -> Vec<u64> {
    match book.limit_at(side, price) {
        Some(l) => l.orders().iter().map(|o| o.size).collect(),
        None => vec![],
    }
}

fn ids_at(book: &OrderBook, side: OrderType, price: u64) -> Vec<u128> {
    match book.limit_at(side, price) {
        Some(l) => l.orders().iter().map(|o| o.id).collect(),
        None => vec![],
    }
}

#[test]
fn three_bids_then_cancel_the_middle_one() {
    let mut book = OrderBook::new();
    let a = book.insert(OrderType::Bid, 10_000, 5).unwrap();
    let b = book.insert(OrderType::Bid, 10_000, 8).unwrap();
    let c = book.insert(OrderType::Bid, 10_000, 10).unwrap();
    assert_eq!(book.volume_at(OrderType::Bid, 10_000), 23);
    assert_eq!(book.limit_at(OrderType::Bid, 10_000).unwrap().len(), 3);

    assert_eq!(book.cancel(b), Ok(()));
    assert_eq!(book.volume_at(OrderType::Bid, 10_000), 15);
    assert_eq!(book.limit_at(OrderType::Bid, 10_000).unwrap().len(), 2);
    assert_eq!(sizes_at(&book, OrderType::Bid, 10_000), vec![5, 10]);
    assert_eq!(ids_at(&book, OrderType::Bid, 10_000), vec![a, c]);
}

#[test]
fn single_bid_sets_and_clears_best_price() {
    let mut book = OrderBook::new();
    let id = book.insert(OrderType::Bid, 15_000, 10).unwrap();
    assert_eq!(book.best_price(OrderType::Bid), Some(15_000));
    assert_eq!(book.cancel(id), Ok(()));
    assert_eq!(book.best_price(OrderType::Bid), None);
    assert_eq!(book.limit_count(OrderType::Bid), 0);
    assert!(book.limit_at(OrderType::Bid, 15_000).is_none());
}

#[test]
fn cancelling_twice_reports_not_found() {
    let mut book = OrderBook::new();
    let id = book.insert(OrderType::Ask, 200, 4).unwrap();
    assert_eq!(book.cancel(id), Ok(()));
    assert_eq!(book.cancel(id), Err(BookError::OrderNotFound));
}

#[test]
fn cancelling_an_unknown_identity_changes_nothing() {
    let mut book = OrderBook::new();
    book.add_order(100, order(1, OrderType::Bid, 3)).unwrap();
    assert_eq!(book.cancel(2), Err(BookError::OrderNotFound));
    assert_eq!(book.volume_at(OrderType::Bid, 100), 3);
}

#[test]
fn time_priority_survives_interior_cancellation() {
    let mut book = OrderBook::new();
    book.add_order(500, order(1, OrderType::Ask, 1)).unwrap();
    book.add_order(500, order(2, OrderType::Ask, 2)).unwrap();
    book.add_order(500, order(3, OrderType::Ask, 3)).unwrap();
    book.cancel(2).unwrap();
    assert_eq!(ids_at(&book, OrderType::Ask, 500), vec![1, 3]);
}

#[test]
fn best_bid_is_highest_and_best_ask_is_lowest() {
    let mut book = OrderBook::new();
    book.add_order(100, order(1, OrderType::Bid, 1)).unwrap();
    book.add_order(300, order(2, OrderType::Bid, 1)).unwrap();
    book.add_order(200, order(3, OrderType::Bid, 1)).unwrap();
    book.add_order(700, order(4, OrderType::Ask, 1)).unwrap();
    book.add_order(500, order(5, OrderType::Ask, 1)).unwrap();
    book.add_order(600, order(6, OrderType::Ask, 1)).unwrap();
    assert_eq!(book.best_price(OrderType::Bid), Some(300));
    assert_eq!(book.best_price(OrderType::Ask), Some(500));
    book.cancel(2).unwrap();
    book.cancel(5).unwrap();
    assert_eq!(book.best_price(OrderType::Bid), Some(200));
    assert_eq!(book.best_price(OrderType::Ask), Some(600));
    assert_eq!(book.limit_count(OrderType::Bid), 2);
    assert_eq!(book.limit_count(OrderType::Ask), 2);
}

#[test]
fn empty_book_has_no_best_price_and_no_volume() {
    let book = OrderBook::new();
    assert_eq!(book.best_price(OrderType::Bid), None);
    assert_eq!(book.best_price(OrderType::Ask), None);
    assert_eq!(book.volume_at(OrderType::Ask, 1), 0);
    assert_eq!(book.limit_count(OrderType::Ask), 0);
}

#[test]
fn sides_are_kept_apart() {
    let mut book = OrderBook::new();
    book.add_order(100, order(1, OrderType::Bid, 4)).unwrap();
    book.add_order(100, order(2, OrderType::Ask, 6)).unwrap();
    assert_eq!(book.volume_at(OrderType::Bid, 100), 4);
    assert_eq!(book.volume_at(OrderType::Ask, 100), 6);
    assert_eq!(book.limit_count(OrderType::Bid), 1);
    assert_eq!(book.limit_count(OrderType::Ask), 1);
}

#[test]
fn duplicate_identity_is_refused() {
    let mut book = OrderBook::new();
    book.add_order(100, order(1, OrderType::Bid, 4)).unwrap();
    assert_eq!(book.add_order(900, order(1, OrderType::Ask, 2)), Err(BookError::DuplicateOrder));
    assert_eq!(book.limit_count(OrderType::Ask), 0);
}

#[test]
fn order_of_size_zero_is_refused_by_the_book() {
    let mut book = OrderBook::new();
    let zero = Order { id: 1, order_type: OrderType::Bid, size: 0, timestamp: 0, limit_id: None };
    assert_eq!(book.add_order(100, zero), Err(BookError::InvalidSize));
    assert_eq!(book.insert(OrderType::Bid, 100, 0), Err(BookError::InvalidSize));
    assert_eq!(book.limit_count(OrderType::Bid), 0);
}

#[test]
fn level_volume_past_the_maximum_is_refused() {
    let mut book = OrderBook::new();
    book.add_order(100, order(1, OrderType::Bid, u64::MAX - 1)).unwrap();
    assert_eq!(book.add_order(100, order(2, OrderType::Bid, 1)), Ok(2));
    assert_eq!(book.volume_at(OrderType::Bid, 100), u64::MAX);
    assert_eq!(book.add_order(100, order(3, OrderType::Bid, 1)), Err(BookError::VolumeOverflow));
    assert_eq!(book.insert(OrderType::Bid, 100, 1), Err(BookError::VolumeOverflow));
    assert_eq!(book.add_order(101, order(3, OrderType::Bid, 1)), Ok(3));
}

#[test]
fn volume_matches_member_sizes_after_mixed_operations() {
    let mut book = OrderBook::new();
    let mut ids = vec![];
    for i in 0..20u64 {
        ids.push(book.insert(OrderType::Ask, 1_000 + (i % 3), i + 1).unwrap());
    }
    for (n, id) in ids.iter().enumerate() {
        if n % 2 == 0 {
            book.cancel(*id).unwrap();
        }
    }
    for p in 1_000..1_003u64 {
        let sum: u64 = sizes_at(&book, OrderType::Ask, p).iter().sum();
        assert_eq!(book.volume_at(OrderType::Ask, p), sum);
    }
}

#[test]
fn identities_stay_unique_across_the_book() {
    let mut book = OrderBook::new();
    let mut all = vec![];
    for i in 0..10u64 {
        let side = if i % 2 == 0 { OrderType::Bid } else { OrderType::Ask };
        book.insert(side, 50 + i % 4, 1).unwrap();
    }
    for side in [OrderType::Bid, OrderType::Ask] {
        for p in 50..54u64 {
            all.extend(ids_at(&book, side, p));
        }
    }
    let n = all.len();
    all.sort();
    all.dedup();
    assert_eq!(all.len(), n);
    assert_eq!(n, 10);
}

#[test]
fn last_order_at_a_price_removes_its_level() {
    let mut book = OrderBook::new();
    book.add_order(10, order(1, OrderType::Bid, 1)).unwrap();
    book.add_order(20, order(2, OrderType::Bid, 1)).unwrap();
    book.add_order(30, order(3, OrderType::Bid, 1)).unwrap();
    book.cancel(2).unwrap();
    assert!(book.limit_at(OrderType::Bid, 20).is_none());
    assert_eq!(book.limit_at(OrderType::Bid, 10).unwrap().price, 10);
    assert_eq!(book.limit_at(OrderType::Bid, 30).unwrap().price, 30);
    book.add_order(20, order(4, OrderType::Bid, 2)).unwrap();
    assert_eq!(book.volume_at(OrderType::Bid, 20), 2);
    assert_eq!(book.limit_count(OrderType::Bid), 3);
}

#[test]
fn insert_returns_a_random_identity_that_rests_at_its_price() {
    let mut book = OrderBook::new();
    let id = book.insert(OrderType::Ask, 42, 7).unwrap();
    assert_eq!((id >> 76) & 0xF, 4);
    assert_eq!(ids_at(&book, OrderType::Ask, 42), vec![id]);
    assert_eq!(book.add_order(42, order(5, OrderType::Ask, 1)), Ok(5));
    assert_eq!(ids_at(&book, OrderType::Ask, 42), vec![id, 5]);
}
