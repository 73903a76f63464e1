use lobstah::{Lobstah, Order, OrderIn};

fn order(side: u8, price: u16, size: u64) -> Order {
    Order {
        symbol: String::from("ACME"),
        trader: String::from("alice"),
        side,
        price,
        size,
    }
}

fn buy(price: u16, size: u64) -> Order {
    order(0, price, size)
}

fn sell(price: u16, size: u64) -> Order {
    order(1, price, size)
}

#[test]
fn submit_buy_on_empty_book() {
    let mut book = Lobstah::new(true);
    let id = book.limit_order(buy(100, 10));
    assert_eq!(id, 1);
    assert_eq!(book.bids.len(), 1);
    assert_eq!(book.bids[0].id, 1);
    assert_eq!(book.bids[0].order.price, 100);
    assert_eq!(book.bids[0].order.size, 10);
    assert_eq!(book.asks.len(), 0);
}

#[test]
fn partial_fill_reduces_resting_bid() {
    let mut book = Lobstah::new(false);
    book.limit_order(buy(100, 10));
    let id = book.limit_order(sell(100, 4));
    assert_eq!(id, 2);
    assert_eq!(book.bids.len(), 1);
    assert_eq!(book.bids[0].id, 1);
    assert_eq!(book.bids[0].order.size, 6);
    assert_eq!(book.asks.len(), 0);
}

#[test]
fn residual_rests_on_own_side() {
    let mut book = Lobstah::new(false);
    book.limit_order(buy(100, 10));
    book.limit_order(sell(100, 4));
    let id = book.limit_order(sell(100, 10));
    assert_eq!(id, 3);
    assert_eq!(book.bids.len(), 0);
    assert_eq!(book.asks.len(), 1);
    assert_eq!(book.asks[0].id, 3);
    assert_eq!(book.asks[0].order.price, 100);
    assert_eq!(book.asks[0].order.size, 4);
}

#[test]
fn cancel_removes_resting_entry() {
    let mut book = Lobstah::new(false);
    book.limit_order(buy(100, 10));
    book.limit_order(sell(100, 4));
    let id = book.limit_order(sell(100, 10));
    book.cancel(id);
    assert_eq!(book.asks.len(), 0);
    assert_eq!(book.bids.len(), 0);
}

#[test]
fn best_price_crossed_first() {
    let mut book = Lobstah::new(false);
    book.limit_order(buy(50, 5));
    book.limit_order(buy(60, 5));
    book.limit_order(sell(55, 3));
    assert_eq!(book.bids.len(), 2);
    assert_eq!(book.bids[0].order.price, 60);
    assert_eq!(book.bids[0].order.size, 2);
    assert_eq!(book.bids[1].order.price, 50);
    assert_eq!(book.bids[1].order.size, 5);
    assert_eq!(book.asks.len(), 0);
}

#[test]
fn zero_size_order_consumes_id_and_rests_nowhere() {
    let mut book = Lobstah::new(false);
    let first = book.limit_order(buy(100, 0));
    assert_eq!(first, 1);
    assert_eq!(book.bids.len(), 0);
    assert_eq!(book.asks.len(), 0);
    let second = book.limit_order(buy(100, 1));
    assert_eq!(second, 2);
}

#[test]
fn cancel_unknown_id_is_noop() {
    let mut book = Lobstah::new(false);
    book.limit_order(buy(100, 10));
    book.cancel(999);
    assert_eq!(book.bids.len(), 1);
    assert_eq!(book.bids[0].order.size, 10);
}

#[test]
fn cancel_twice_same_as_once() {
    let mut book = Lobstah::new(false);
    let a = book.limit_order(buy(100, 10));
    let b = book.limit_order(buy(90, 5));
    book.cancel(a);
    let bids_after_once: Vec<u64> = book.bids.iter().map(|e| e.id).collect();
    book.cancel(a);
    let bids_after_twice: Vec<u64> = book.bids.iter().map(|e| e.id).collect();
    assert_eq!(bids_after_once, bids_after_twice);
    assert_eq!(bids_after_twice, vec![b]);
}

#[test]
fn ids_strictly_increase_regardless_of_fill() {
    let mut book = Lobstah::new(false);
    let a = book.limit_order(buy(100, 10));
    let b = book.limit_order(sell(100, 10)); // full fill, still consumes an id
    book.cancel(a);
    let c = book.limit_order(sell(90, 1));
    let d = book.limit_order(buy(10, 0)); // no fill, no entry, still consumes an id
    assert!(a < b && b < c && c < d);
    assert_eq!(vec![a, b, c, d], vec![1, 2, 3, 4]);
}

#[test]
fn time_priority_at_equal_price() {
    let mut book = Lobstah::new(false);
    let first = book.limit_order(buy(100, 5));
    let second = book.limit_order(buy(100, 3));
    assert_eq!(book.bids.len(), 2);
    assert_eq!(book.bids[0].id, first);
    assert_eq!(book.bids[1].id, second);
    // the earlier order fills first
    book.limit_order(sell(100, 6));
    assert_eq!(book.bids.len(), 1);
    assert_eq!(book.bids[0].id, second);
    assert_eq!(book.bids[0].order.size, 2);
}

#[test]
fn queues_stay_price_ordered() {
    let mut book = Lobstah::new(false);
    for (price, size) in [(50u16, 1u64), (70, 2), (60, 3), (70, 4), (55, 5)] {
        book.limit_order(buy(price, size));
    }
    for (price, size) in [(90u16, 1u64), (80, 2), (85, 3), (80, 4), (95, 5)] {
        book.limit_order(sell(price, size));
    }
    for w in book.bids.windows(2) {
        assert!(w[0].order.price >= w[1].order.price);
        if w[0].order.price == w[1].order.price {
            assert!(w[0].id < w[1].id);
        }
    }
    for w in book.asks.windows(2) {
        assert!(w[0].order.price <= w[1].order.price);
        if w[0].order.price == w[1].order.price {
            assert!(w[0].id < w[1].id);
        }
    }
    for e in book.bids.iter().chain(book.asks.iter()) {
        assert!(e.order.size > 0);
    }
}

#[test]
fn match_conserves_size() {
    let mut book = Lobstah::new(false);
    book.limit_order(buy(100, 7));
    book.limit_order(buy(99, 5));
    book.limit_order(buy(98, 11));
    let resting_before: u64 = book.bids.iter().map(|e| e.order.size).sum();
    let incoming: u64 = 10;
    book.limit_order(sell(99, incoming));
    let resting_after: u64 = book.bids.iter().map(|e| e.order.size).sum();
    let residual: u64 = book.asks.iter().map(|e| e.order.size).sum();
    // size removed from the bid queue == size consumed from the incoming order
    assert_eq!(resting_before - resting_after, incoming - residual);
    assert_eq!(resting_before - resting_after, 10);
    assert_eq!(residual, 0);
}

#[test]
fn no_zero_size_entry_after_exact_fill() {
    let mut book = Lobstah::new(false);
    book.limit_order(buy(100, 4));
    book.limit_order(buy(100, 6));
    book.limit_order(sell(100, 4)); // consumes the first bid exactly
    assert_eq!(book.bids.len(), 1);
    assert!(book.bids.iter().all(|e| e.order.size > 0));
}

#[test]
fn sell_stops_at_first_non_crossing_bid() {
    let mut book = Lobstah::new(false);
    book.limit_order(buy(100, 5));
    book.limit_order(buy(60, 5));
    let id = book.limit_order(sell(70, 8));
    // crosses the 100 bid, stops at the 60 bid, residual rests as an ask
    assert_eq!(book.bids.len(), 1);
    assert_eq!(book.bids[0].order.price, 60);
    assert_eq!(book.asks.len(), 1);
    assert_eq!(book.asks[0].id, id);
    assert_eq!(book.asks[0].order.size, 3);
    assert_eq!(book.asks[0].order.price, 70);
}

#[test]
fn comparator_values() {
    assert!(Lobstah::is_ask(1));
    assert!(!Lobstah::is_ask(0));
    assert!(!Lobstah::is_ask(2));

    assert!(Lobstah::hit_ask(100, 100));
    assert!(Lobstah::hit_ask(101, 100));
    assert!(!Lobstah::hit_ask(99, 100));

    assert!(Lobstah::hit_bid(100, 100));
    assert!(Lobstah::hit_bid(99, 100));
    assert!(!Lobstah::hit_bid(101, 100));

    assert!(Lobstah::priority_ask(99, 100));
    assert!(!Lobstah::priority_ask(100, 100));
    assert!(!Lobstah::priority_ask(101, 100));

    assert!(Lobstah::priority_bid(101, 100));
    assert!(!Lobstah::priority_bid(100, 100));
    assert!(!Lobstah::priority_bid(99, 100));
}

#[test]
fn buy_crosses_cheapest_asks_first() {
    let mut book = Lobstah::new(false);
    book.limit_order(sell(30, 2));
    book.limit_order(sell(10, 2));
    book.limit_order(sell(20, 2));
    assert_eq!(
        book.asks.iter().map(|e| e.order.price).collect::<Vec<u16>>(),
        vec![10, 20, 30]
    );
    let id = book.limit_order(buy(20, 5));
    // consumes the 10 and 20 asks, leaves the 30 ask, residual 1 rests as a bid
    assert_eq!(
        book.asks.iter().map(|e| e.order.price).collect::<Vec<u16>>(),
        vec![30]
    );
    assert_eq!(book.bids.len(), 1);
    assert_eq!(book.bids[0].id, id);
    assert_eq!(book.bids[0].order.size, 1);
}

#[test]
fn cancel_finds_entry_on_either_side() {
    let mut book = Lobstah::new(false);
    let b = book.limit_order(buy(40, 1));
    let a = book.limit_order(sell(50, 1));
    book.cancel(b);
    assert_eq!(book.bids.len(), 0);
    assert_eq!(book.asks.len(), 1);
    book.cancel(a);
    assert_eq!(book.asks.len(), 0);
}

#[test]
fn checker_accepts_books_the_core_builds() {
    let mut book = Lobstah::new(false);
    assert!(book.is_well_formed());
    book.limit_order(buy(100, 10));
    book.limit_order(sell(120, 3));
    book.limit_order(sell(110, 4));
    book.limit_order(buy(115, 6));
    book.cancel(1);
    assert!(book.is_well_formed());
}

#[test]
fn checker_rejects_broken_books() {
    let entry = |id: u64, price: u16, size: u64| OrderIn { order: buy(price, size), id };

    // a zero-size entry rests
    let book = Lobstah { bids: vec![entry(1, 100, 0)], asks: vec![], id: 2 };
    assert!(!book.is_well_formed());

    // bids out of price order
    let book = Lobstah { bids: vec![entry(1, 90, 1), entry(2, 100, 1)], asks: vec![], id: 3 };
    assert!(!book.is_well_formed());

    // equal price out of arrival order
    let book = Lobstah { bids: vec![entry(2, 100, 1), entry(1, 100, 1)], asks: vec![], id: 3 };
    assert!(!book.is_well_formed());

    // an identifier on both sides
    let book = Lobstah { bids: vec![entry(1, 90, 1)], asks: vec![entry(1, 100, 1)], id: 2 };
    assert!(!book.is_well_formed());

    // a resting identifier at or above the counter
    let book = Lobstah { bids: vec![entry(5, 90, 1)], asks: vec![], id: 2 };
    assert!(!book.is_well_formed());

    // the counter below its starting value
    let book = Lobstah { bids: vec![], asks: vec![], id: 0 };
    assert!(!book.is_well_formed());
}
