use orderbook_hft::models::order::OrderError;
use orderbook_hft::models::price_level::{levels_well_formed, PriceLevel};
use orderbook_hft::models::trade::Trade;
use orderbook_hft::{Order, OrderBook};
use std::collections::VecDeque;
use std::time::{Duration, SystemTime};

fn order(id: &str, price: i64, quantity: i32, is_buy: bool) -> Order {
    Order { id: id.to_string(), price, quantity, is_buy, order_time: SystemTime::now() }
}

fn resting(book: &[PriceLevel]) -> Vec<(String, i64, i32)> {
    let mut all = Vec::new();
    for level in book {
        for o in &level.orders {
            assert_eq!(o.price, level.price);
            all.push((o.id.clone(), o.price, o.quantity));
        }
    }
    all
}

fn deals(book: &OrderBook) -> Vec<(String, String, i64, i32)> {
    book.trades
        .iter()
        .map(|t| (t.buy_order_id.clone(), t.sell_order_id.clone(), t.price, t.quantity))
        .collect()
}

fn row(id: &str, price: i64, quantity: i32) -> (String, i64, i32) {
    (id.to_string(), price, quantity)
}

fn deal(buy: &str, sell: &str, price: i64, quantity: i32) -> (String, String, i64, i32) {
    (buy.to_string(), sell.to_string(), price, quantity)
}

#[test]
fn new_book_is_empty() {
    let ob = OrderBook::new();
    assert!(ob.buy_orders.is_empty());
    assert!(ob.sell_orders.is_empty());
    assert!(ob.trades.is_empty());
}

#[test]
fn crossing_sell_trades_at_the_resting_price() {
    let mut ob = OrderBook::new();
    assert_eq!(ob.add_order(order("B1", 100, 5, true)), Ok(()));
    assert_eq!(ob.add_order(order("S1", 99, 5, false)), Ok(()));
    assert_eq!(deals(&ob), vec![deal("B1", "S1", 100, 5)]);
    assert!(ob.buy_orders.is_empty());
    assert!(ob.sell_orders.is_empty());
}

#[test]
fn crossing_buy_trades_at_the_resting_price() {
    let mut ob = OrderBook::new();
    ob.add_order(order("S1", 99, 5, false)).unwrap();
    ob.add_order(order("B1", 100, 5, true)).unwrap();
    assert_eq!(deals(&ob), vec![deal("B1", "S1", 99, 5)]);
    assert!(ob.buy_orders.is_empty());
    assert!(ob.sell_orders.is_empty());
}

#[test]
fn partial_fill_leaves_the_remainder_resting() {
    let mut ob = OrderBook::new();
    ob.add_order(order("B1", 100, 10, true)).unwrap();
    ob.add_order(order("S1", 100, 5, false)).unwrap();
    assert_eq!(deals(&ob), vec![deal("B1", "S1", 100, 5)]);
    assert_eq!(resting(&ob.buy_orders), vec![row("B1", 100, 5)]);
    assert!(ob.sell_orders.is_empty());
}

#[test]
fn zero_quantity_order_neither_trades_nor_rests() {
    let mut ob = OrderBook::new();
    ob.add_order(order("B0", 100, 5, true)).unwrap();
    assert_eq!(ob.add_order(order("B1", 100, 0, true)), Ok(()));
    assert!(ob.trades.is_empty());
    assert_eq!(resting(&ob.buy_orders), vec![row("B0", 100, 5)]);
    ob.add_order(order("S1", 100, 5, false)).unwrap();
    assert_eq!(deals(&ob), vec![deal("B0", "S1", 100, 5)]);
    assert!(ob.buy_orders.is_empty());
    assert!(ob.sell_orders.is_empty());
}

#[test]
fn zero_quantity_order_leaves_a_crossing_level_alone() {
    let mut ob = OrderBook::new();
    ob.add_order(order("S1", 100, 5, false)).unwrap();
    assert_eq!(ob.add_order(order("B1", 100, 0, true)), Ok(()));
    assert!(ob.trades.is_empty());
    assert!(ob.buy_orders.is_empty());
    assert_eq!(resting(&ob.sell_orders), vec![row("S1", 100, 5)]);
}

#[test]
fn sell_without_buyers_rests() {
    let mut ob = OrderBook::new();
    ob.add_order(order("S1", 99, 5, false)).unwrap();
    assert!(ob.trades.is_empty());
    assert!(ob.buy_orders.is_empty());
    assert_eq!(ob.sell_orders.len(), 1);
    assert_eq!(ob.sell_orders[0].price, 99);
    assert_eq!(resting(&ob.sell_orders), vec![row("S1", 99, 5)]);
}

#[test]
fn orders_that_do_not_cross_rest_on_both_sides() {
    let mut ob = OrderBook::new();
    ob.add_order(order("B1", 99, 5, true)).unwrap();
    ob.add_order(order("S1", 100, 5, false)).unwrap();
    assert!(ob.trades.is_empty());
    assert_eq!(resting(&ob.buy_orders), vec![row("B1", 99, 5)]);
    assert_eq!(resting(&ob.sell_orders), vec![row("S1", 100, 5)]);
}

#[test]
fn negative_price_is_turned_away() {
    let mut ob = OrderBook::new();
    ob.add_order(order("S1", 100, 5, false)).unwrap();
    assert_eq!(ob.add_order(order("B1", -1, 5, true)), Err(OrderError::InvalidOrder));
    assert!(ob.trades.is_empty());
    assert!(ob.buy_orders.is_empty());
    assert_eq!(resting(&ob.sell_orders), vec![row("S1", 100, 5)]);
}

#[test]
fn negative_quantity_is_turned_away() {
    let mut ob = OrderBook::new();
    ob.add_order(order("B1", 100, 5, true)).unwrap();
    assert_eq!(ob.add_order(order("S1", 100, -5, false)), Err(OrderError::InvalidOrder));
    assert!(ob.trades.is_empty());
    assert_eq!(resting(&ob.buy_orders), vec![row("B1", 100, 5)]);
    assert!(ob.sell_orders.is_empty());
}

#[test]
fn validity_of_orders() {
    assert!(order("A", 0, 0, true).is_valid());
    assert!(order("A", 100, 5, false).is_valid());
    assert!(!order("A", -1, 5, true).is_valid());
    assert!(!order("A", 100, -1, true).is_valid());
    assert!(order("A", i64::MAX, i32::MAX, true).is_valid());
    assert!(!order("A", i64::MIN, i32::MIN, false).is_valid());
}

#[test]
fn better_price_is_matched_first_whenever_it_arrived() {
    let mut ob = OrderBook::new();
    ob.add_order(order("S1", 102, 4, false)).unwrap();
    ob.add_order(order("S2", 100, 4, false)).unwrap();
    ob.add_order(order("S3", 101, 4, false)).unwrap();
    ob.add_order(order("B1", 102, 10, true)).unwrap();
    assert_eq!(
        deals(&ob),
        vec![deal("B1", "S2", 100, 4), deal("B1", "S3", 101, 4), deal("B1", "S1", 102, 2)]
    );
    assert_eq!(resting(&ob.sell_orders), vec![row("S1", 102, 2)]);
    assert!(ob.buy_orders.is_empty());
}

#[test]
fn highest_bid_is_matched_first() {
    let mut ob = OrderBook::new();
    ob.add_order(order("B1", 98, 4, true)).unwrap();
    ob.add_order(order("B2", 100, 4, true)).unwrap();
    ob.add_order(order("B3", 99, 4, true)).unwrap();
    ob.add_order(order("S1", 99, 6, false)).unwrap();
    assert_eq!(deals(&ob), vec![deal("B2", "S1", 100, 4), deal("B3", "S1", 99, 2)]);
    assert_eq!(resting(&ob.buy_orders), vec![row("B3", 99, 2), row("B1", 98, 4)]);
    assert!(ob.sell_orders.is_empty());
}

#[test]
fn earlier_order_at_one_price_is_matched_first() {
    let mut ob = OrderBook::new();
    ob.add_order(order("B1", 100, 3, true)).unwrap();
    ob.add_order(order("B2", 100, 3, true)).unwrap();
    ob.add_order(order("B3", 100, 3, true)).unwrap();
    assert_eq!(ob.buy_orders.len(), 1);
    ob.add_order(order("S1", 100, 4, false)).unwrap();
    assert_eq!(deals(&ob), vec![deal("B1", "S1", 100, 3), deal("B2", "S1", 100, 1)]);
    assert_eq!(resting(&ob.buy_orders), vec![row("B2", 100, 2), row("B3", 100, 3)]);
}

#[test]
fn partly_filled_order_keeps_its_place() {
    let mut ob = OrderBook::new();
    ob.add_order(order("S1", 100, 5, false)).unwrap();
    ob.add_order(order("S2", 100, 5, false)).unwrap();
    ob.add_order(order("B1", 100, 2, true)).unwrap();
    ob.add_order(order("B2", 100, 4, true)).unwrap();
    assert_eq!(
        deals(&ob),
        vec![deal("B1", "S1", 100, 2), deal("B2", "S1", 100, 3), deal("B2", "S2", 100, 1)]
    );
    assert_eq!(resting(&ob.sell_orders), vec![row("S2", 100, 4)]);
}

#[test]
fn remainder_of_a_taker_rests_at_its_own_limit() {
    let mut ob = OrderBook::new();
    ob.add_order(order("S1", 100, 3, false)).unwrap();
    ob.add_order(order("S2", 105, 3, false)).unwrap();
    ob.add_order(order("B1", 102, 10, true)).unwrap();
    assert_eq!(deals(&ob), vec![deal("B1", "S1", 100, 3)]);
    assert_eq!(resting(&ob.buy_orders), vec![row("B1", 102, 7)]);
    assert_eq!(resting(&ob.sell_orders), vec![row("S2", 105, 3)]);
}

#[test]
fn levels_are_kept_best_price_first() {
    let mut ob = OrderBook::new();
    for (id, price) in [("B1", 95), ("B2", 97), ("B3", 96), ("B4", 97), ("B5", 94)] {
        ob.add_order(order(id, price, 1, true)).unwrap();
    }
    for (id, price) in [("S1", 105), ("S2", 103), ("S3", 104), ("S4", 103), ("S5", 106)] {
        ob.add_order(order(id, price, 1, false)).unwrap();
    }
    let bids: Vec<i64> = ob.buy_orders.iter().map(|l| l.price).collect();
    let offers: Vec<i64> = ob.sell_orders.iter().map(|l| l.price).collect();
    assert_eq!(bids, vec![97, 96, 95, 94]);
    assert_eq!(offers, vec![103, 104, 105, 106]);
    assert_eq!(
        resting(&ob.buy_orders),
        vec![row("B2", 97, 1), row("B4", 97, 1), row("B3", 96, 1), row("B1", 95, 1), row("B5", 94, 1)]
    );
    assert_eq!(
        resting(&ob.sell_orders),
        vec![
            row("S2", 103, 1),
            row("S4", 103, 1),
            row("S3", 104, 1),
            row("S1", 105, 1),
            row("S5", 106, 1)
        ]
    );
    assert!(ob.trades.is_empty());
}

#[test]
fn book_is_never_left_crossed() {
    let mut ob = OrderBook::new();
    let script = [
        ("B1", 100, 5, true),
        ("S1", 101, 5, false),
        ("B2", 101, 2, true),
        ("S2", 99, 10, false),
        ("B3", 99, 1, true),
        ("B4", 105, 20, true),
        ("S3", 90, 3, false),
        ("S4", 105, 30, false),
    ];
    for (id, price, quantity, is_buy) in script {
        ob.add_order(order(id, price, quantity, is_buy)).unwrap();
        if !ob.buy_orders.is_empty() && !ob.sell_orders.is_empty() {
            assert!(ob.buy_orders[0].price < ob.sell_orders[0].price);
        }
        for level in ob.buy_orders.iter().chain(ob.sell_orders.iter()) {
            assert!(!level.orders.is_empty());
            assert!(level.orders.iter().all(|o| o.quantity > 0));
        }
    }
}

#[test]
fn quantity_is_conserved_for_every_order() {
    let mut ob = OrderBook::new();
    let script = [
        ("B1", 100, 5, true),
        ("S1", 101, 5, false),
        ("B2", 101, 2, true),
        ("S2", 99, 10, false),
        ("B3", 99, 1, true),
        ("B4", 105, 20, true),
        ("S3", 90, 3, false),
        ("S4", 105, 30, false),
    ];
    for (id, price, quantity, is_buy) in script {
        ob.add_order(order(id, price, quantity, is_buy)).unwrap();
    }
    for (id, _, quantity, _) in script {
        let filled: i32 = ob
            .trades
            .iter()
            .map(|t| {
                (if t.buy_order_id == id { t.quantity } else { 0 })
                    + (if t.sell_order_id == id { t.quantity } else { 0 })
            })
            .sum();
        let left: i32 = resting(&ob.buy_orders)
            .iter()
            .chain(resting(&ob.sell_orders).iter())
            .filter(|r| r.0 == id)
            .map(|r| r.2)
            .sum();
        assert_eq!(filled + left, quantity);
    }
    assert!(ob.trades.iter().all(|t| t.quantity > 0));
}

#[test]
fn trade_log_only_grows() {
    let mut ob = OrderBook::new();
    ob.add_order(order("S1", 100, 5, false)).unwrap();
    ob.add_order(order("B1", 100, 2, true)).unwrap();
    let first = deals(&ob);
    let settled = ob.trades[0].settlement_time;
    ob.add_order(order("B2", 100, 2, true)).unwrap();
    ob.add_order(order("B3", -5, 2, true)).unwrap_err();
    assert_eq!(ob.trades.len(), 2);
    assert_eq!(deals(&ob)[..1], first[..]);
    assert_eq!(ob.trades[0].settlement_time, settled);
}

#[test]
fn resting_order_keeps_its_submission_time() {
    let mut ob = OrderBook::new();
    let then = SystemTime::UNIX_EPOCH + Duration::from_secs(1_000_000);
    ob.add_order(Order {
        id: "S1".to_string(),
        price: 100,
        quantity: 5,
        is_buy: false,
        order_time: then,
    })
    .unwrap();
    ob.add_order(order("B1", 100, 2, true)).unwrap();
    assert_eq!(ob.sell_orders[0].orders[0].order_time, then);
    assert_eq!(ob.sell_orders[0].orders[0].quantity, 3);
    assert!(ob.trades[0].settlement_time > then);
}

#[test]
fn match_order_works_through_the_levels_it_is_given() {
    let mut trades = VecDeque::new();
    let mut book = vec![
        PriceLevel { price: 100, orders: VecDeque::from(vec![order("S1", 100, 2, false)]) },
        PriceLevel {
            price: 101,
            orders: VecDeque::from(vec![order("S2", 101, 2, false), order("S3", 101, 2, false)]),
        },
        PriceLevel { price: 103, orders: VecDeque::from(vec![order("S4", 103, 2, false)]) },
    ];
    let mut incoming = order("B1", 102, 5, true);
    OrderBook::match_order(&mut trades, &mut incoming, &mut book, true);
    assert_eq!(incoming.quantity, 0);
    assert_eq!(incoming.id, "B1");
    assert_eq!(incoming.price, 102);
    let made: Vec<(String, String, i64, i32)> = trades
        .iter()
        .map(|t: &Trade| (t.buy_order_id.clone(), t.sell_order_id.clone(), t.price, t.quantity))
        .collect();
    assert_eq!(
        made,
        vec![deal("B1", "S1", 100, 2), deal("B1", "S2", 101, 2), deal("B1", "S3", 101, 1)]
    );
    assert_eq!(resting(&book), vec![row("S3", 101, 1), row("S4", 103, 2)]);
}

#[test]
fn match_order_stops_at_the_limit() {
    let mut trades = VecDeque::new();
    let mut book = vec![
        PriceLevel { price: 100, orders: VecDeque::from(vec![order("B1", 100, 2, true)]) },
        PriceLevel { price: 98, orders: VecDeque::from(vec![order("B2", 98, 2, true)]) },
    ];
    let mut incoming = order("S1", 99, 5, false);
    OrderBook::match_order(&mut trades, &mut incoming, &mut book, false);
    assert_eq!(incoming.quantity, 3);
    assert_eq!(trades.len(), 1);
    assert_eq!(trades[0].buy_order_id, "B1");
    assert_eq!(trades[0].sell_order_id, "S1");
    assert_eq!(trades[0].price, 100);
    assert_eq!(trades[0].quantity, 2);
    assert_eq!(resting(&book), vec![row("B2", 98, 2)]);
}

#[test]
fn match_order_with_nothing_to_fill_changes_nothing() {
    let mut trades = VecDeque::new();
    let mut book =
        vec![PriceLevel { price: 100, orders: VecDeque::from(vec![order("S1", 100, 2, false)]) }];
    let mut incoming = order("B1", 100, 0, true);
    OrderBook::match_order(&mut trades, &mut incoming, &mut book, true);
    assert_eq!(incoming.quantity, 0);
    assert!(trades.is_empty());
    assert_eq!(resting(&book), vec![row("S1", 100, 2)]);
}

#[test]
fn rest_order_finds_its_level() {
    let mut book: Vec<PriceLevel> = Vec::new();
    OrderBook::rest_order(&mut book, order("S1", 101, 1, false));
    OrderBook::rest_order(&mut book, order("S2", 103, 1, false));
    OrderBook::rest_order(&mut book, order("S3", 102, 1, false));
    OrderBook::rest_order(&mut book, order("S4", 101, 1, false));
    OrderBook::rest_order(&mut book, order("S5", 100, 1, false));
    assert_eq!(book.len(), 4);
    assert_eq!(
        resting(&book),
        vec![
            row("S5", 100, 1),
            row("S1", 101, 1),
            row("S4", 101, 1),
            row("S3", 102, 1),
            row("S2", 103, 1)
        ]
    );
}

#[test]
fn trade_record_names_buyer_and_seller() {
    let at = SystemTime::UNIX_EPOCH + Duration::from_secs(42);
    let taker = order("T", 105, 9, true);
    let maker = order("M", 100, 4, false);
    let t = Trade::record(&taker, &maker, 4, true, at);
    assert_eq!(t.buy_order_id, "T");
    assert_eq!(t.sell_order_id, "M");
    assert_eq!(t.price, 100);
    assert_eq!(t.quantity, 4);
    assert_eq!(t.settlement_time, at);

    let taker = order("T", 95, 9, false);
    let maker = order("M", 100, 4, true);
    let t = Trade::record(&taker, &maker, 3, false, at);
    assert_eq!(t.buy_order_id, "M");
    assert_eq!(t.sell_order_id, "T");
    assert_eq!(t.price, 100);
    assert_eq!(t.quantity, 3);
    assert_eq!(t.settlement_time, at);
}

#[test]
fn same_identifier_on_both_sides_still_trades() {
    let mut ob = OrderBook::new();
    ob.add_order(order("X", 100, 5, true)).unwrap();
    ob.add_order(order("X", 100, 3, false)).unwrap();
    assert_eq!(deals(&ob), vec![deal("X", "X", 100, 3)]);
    assert_eq!(resting(&ob.buy_orders), vec![row("X", 100, 2)]);
}

#[test]
fn extreme_prices_and_quantities() {
    let mut ob = OrderBook::new();
    ob.add_order(order("S1", i64::MAX, i32::MAX, false)).unwrap();
    ob.add_order(order("S2", 0, i32::MAX, false)).unwrap();
    ob.add_order(order("B1", i64::MAX, i32::MAX, true)).unwrap();
    assert_eq!(deals(&ob), vec![deal("B1", "S2", 0, i32::MAX)]);
    assert_eq!(resting(&ob.sell_orders), vec![row("S1", i64::MAX, i32::MAX)]);
    assert!(ob.buy_orders.is_empty());
}

#[test]
fn book_built_by_submissions_is_well_formed() {
    let mut ob = OrderBook::new();
    assert!(ob.is_well_formed());
    for (id, price, quantity, is_buy) in [
        ("B1", 100, 5, true),
        ("S1", 102, 5, false),
        ("B2", 101, 2, true),
        ("S2", 100, 4, false),
        ("S3", 100, 0, false),
        ("B3", 102, 7, true),
    ] {
        ob.add_order(order(id, price, quantity, is_buy)).unwrap();
        assert!(ob.is_well_formed());
    }
    assert_eq!(resting(&ob.buy_orders), vec![row("B3", 102, 2), row("B1", 100, 3)]);
    assert!(ob.sell_orders.is_empty());
}

#[test]
fn crossed_book_is_not_well_formed() {
    let mut ob = OrderBook::new();
    ob.buy_orders
        .push(PriceLevel { price: 100, orders: VecDeque::from(vec![order("B1", 100, 1, true)]) });
    assert!(ob.is_well_formed());
    ob.sell_orders
        .push(PriceLevel { price: 100, orders: VecDeque::from(vec![order("S1", 100, 1, false)]) });
    assert!(!ob.is_well_formed());
    ob.sell_orders[0].price = 101;
    ob.sell_orders[0].orders[0].price = 101;
    assert!(ob.is_well_formed());
}

#[test]
fn level_checks() {
    let good = PriceLevel { price: 100, orders: VecDeque::from(vec![order("B1", 100, 1, true)]) };
    assert!(good.is_well_formed(true));
    assert!(!good.is_well_formed(false));
    let empty = PriceLevel { price: 100, orders: VecDeque::new() };
    assert!(!empty.is_well_formed(true));
    let stray = PriceLevel { price: 100, orders: VecDeque::from(vec![order("B1", 99, 1, true)]) };
    assert!(!stray.is_well_formed(true));
    let spent = PriceLevel { price: 100, orders: VecDeque::from(vec![order("B1", 100, 0, true)]) };
    assert!(!spent.is_well_formed(true));
    let negative = PriceLevel { price: -1, orders: VecDeque::from(vec![order("B1", -1, 1, true)]) };
    assert!(!negative.is_well_formed(true));
}

#[test]
fn levels_must_be_sorted_best_first() {
    let level = |id: &str, price: i64, is_buy: bool| PriceLevel {
        price,
        orders: VecDeque::from(vec![order(id, price, 1, is_buy)]),
    };
    assert!(levels_well_formed(&Vec::new(), true));
    assert!(levels_well_formed(&vec![level("B1", 101, true), level("B2", 100, true)], true));
    assert!(!levels_well_formed(&vec![level("B1", 100, true), level("B2", 101, true)], true));
    assert!(!levels_well_formed(&vec![level("B1", 100, true), level("B2", 100, true)], true));
    assert!(levels_well_formed(&vec![level("S1", 100, false), level("S2", 101, false)], false));
    assert!(!levels_well_formed(&vec![level("S1", 101, false), level("S2", 100, false)], false));
    assert!(!levels_well_formed(&vec![level("S1", 100, false), level("B1", 101, true)], false));
}

#[test]
fn clone_of_an_order_is_equal_to_it() {
    let at = SystemTime::UNIX_EPOCH + Duration::from_secs(7);
    let o = Order { id: "B1".to_string(), price: 100, quantity: 5, is_buy: true, order_time: at };
    let copy = o.clone();
    assert_eq!(copy, o);
    assert_eq!(copy.id, "B1");
    assert_eq!(copy.price, 100);
    assert_eq!(copy.quantity, 5);
    assert!(copy.is_buy);
    assert_eq!(copy.order_time, at);
}
