use orderbook::book::Orderbook;
use orderbook::order::{Order, OrderbookError, Security};

fn sec() -> Security {
    Security { isin: String::from("DE0001234567"), name: String::from("Test Instrument") }
}

#[test]
fn new_order_is_unassigned() {
    let s = sec();
    let o = Order::new(true, Some(10), &s, 5);
    assert_eq!(o.order_id(), -1);
    assert_eq!(o.remaining(), 5);
}

#[test]
fn ids_are_assigned_monotonically() {
    let s = sec();
    let mut book = Orderbook::new(&s, 100);
    let a = book.place_order(Order::new(true, Some(90), &s, 1)).unwrap();
    let b = book.place_order(Order::new(true, Some(91), &s, 1)).unwrap();
    let c = book.place_order(Order::new(false, Some(200), &s, 1)).unwrap();
    assert!(a < b && b < c);
}

#[test]
fn zero_quantity_is_rejected() {
    let s = sec();
    let mut book = Orderbook::new(&s, 100);
    let r = book.place_order(Order::new(true, Some(90), &s, 0));
    assert_eq!(r, Err(OrderbookError::InvalidQuantity));
    assert_eq!(book.best_bid(), None);
}

#[test]
fn zero_price_is_rejected() {
    let s = sec();
    let mut book = Orderbook::new(&s, 100);
    let r = book.place_order(Order::new(false, Some(0), &s, 4));
    assert_eq!(r, Err(OrderbookError::InvalidPrice));
    assert_eq!(book.best_ask(), None);
}

#[test]
fn resting_bid_sets_bounds() {
    let s = sec();
    let mut book = Orderbook::new(&s, 100);
    let id = book.place_order(Order::new(true, Some(98), &s, 10)).unwrap();
    assert_eq!(book.best_bid(), Some(98));
    assert_eq!(book.worst_bid(), Some(98));
    assert_eq!(book.best_ask(), None);
    let o = book.get_order(id).unwrap();
    assert_eq!(o.amount, 10);
    assert_eq!(o.amount_executed, 0);
}

#[test]
fn crossing_sell_executes_at_resting_price() {
    // Starting price 100: a buy limit 98 rests; a sell limit 97 crosses
    // and trades at the resting order's price, 98, for quantity 5.
    let s = sec();
    let mut book = Orderbook::new(&s, 100);
    let buy = book.place_order(Order::new(true, Some(98), &s, 10)).unwrap();
    assert_eq!(book.best_bid(), Some(98));
    let sell = book.place_order(Order::new(false, Some(97), &s, 5)).unwrap();
    let log = book.execution_log();
    assert_eq!(log.len(), 1);
    assert_eq!(log[0].buying_order_id, buy);
    assert_eq!(log[0].selling_order_id, sell);
    assert_eq!(log[0].price, 98);
    assert_eq!(log[0].quantity, 5);
    let rest = book.get_order(buy).unwrap();
    assert_eq!(rest.amount_executed, 5);
    assert_eq!(rest.remaining(), 5);
    assert_eq!(book.best_bid(), Some(98));
    assert!(book.get_order(sell).is_none());
    assert_eq!(book.market_price(), 98);
}

#[test]
fn market_order_on_empty_book_is_discarded() {
    // A sell at market against an empty book: no executions, the order
    // does not rest, and its id is still returned as placed.
    let s = sec();
    let mut book = Orderbook::new(&s, 100);
    let id = book.place_order(Order::new(false, None, &s, 20)).unwrap();
    assert_eq!(book.execution_log().len(), 0);
    assert!(book.get_order(id).is_none());
    assert_eq!(book.best_bid(), None);
    assert_eq!(book.best_ask(), None);
    assert_eq!(book.market_price(), 100);
}

#[test]
fn market_order_takes_what_rests_and_discards_the_rest() {
    let s = sec();
    let mut book = Orderbook::new(&s, 100);
    let buy = book.place_order(Order::new(true, Some(98), &s, 5)).unwrap();
    let sell = book.place_order(Order::new(false, None, &s, 20)).unwrap();
    let log = book.execution_log();
    assert_eq!(log.len(), 1);
    assert_eq!(log[0].buying_order_id, buy);
    assert_eq!(log[0].selling_order_id, sell);
    assert_eq!(log[0].price, 98);
    assert_eq!(log[0].quantity, 5);
    assert!(book.get_order(buy).is_none());
    assert!(book.get_order(sell).is_none());
    assert_eq!(book.best_bid(), None);
    assert_eq!(book.market_price(), 98);
}

#[test]
fn same_level_is_fifo() {
    // Two sells at the same price: a crossing buy fills the older one in
    // full before touching the younger one.
    let s = sec();
    let mut book = Orderbook::new(&s, 100);
    let s1 = book.place_order(Order::new(false, Some(100), &s, 5)).unwrap();
    let s2 = book.place_order(Order::new(false, Some(100), &s, 7)).unwrap();
    let buy = book.place_order(Order::new(true, Some(100), &s, 6)).unwrap();
    let log = book.execution_log();
    assert_eq!(log.len(), 2);
    assert_eq!(log[0].selling_order_id, s1);
    assert_eq!(log[0].quantity, 5);
    assert_eq!(log[1].selling_order_id, s2);
    assert_eq!(log[1].quantity, 1);
    assert!(book.get_order(s1).is_none());
    assert_eq!(book.get_order(s2).unwrap().remaining(), 6);
    assert!(book.get_order(buy).is_none());
    assert_eq!(book.best_ask(), Some(100));
}

#[test]
fn better_level_is_exhausted_before_worse() {
    // Asks at 101 and 103: a buy limit 103 takes all of 101 first, then
    // part of 103, at each level's own price.
    let s = sec();
    let mut book = Orderbook::new(&s, 100);
    let s1 = book.place_order(Order::new(false, Some(101), &s, 5)).unwrap();
    let s2 = book.place_order(Order::new(false, Some(103), &s, 5)).unwrap();
    let buy = book.place_order(Order::new(true, Some(103), &s, 8)).unwrap();
    let log = book.execution_log();
    assert_eq!(log.len(), 2);
    assert_eq!(log[0].selling_order_id, s1);
    assert_eq!(log[0].price, 101);
    assert_eq!(log[0].quantity, 5);
    assert_eq!(log[1].selling_order_id, s2);
    assert_eq!(log[1].price, 103);
    assert_eq!(log[1].quantity, 3);
    assert!(book.get_order(s1).is_none());
    assert_eq!(book.get_order(s2).unwrap().remaining(), 2);
    assert!(book.get_order(buy).is_none());
    assert_eq!(book.best_ask(), Some(103));
    assert_eq!(book.market_price(), 103);
}

#[test]
fn partial_incoming_limit_rests_at_its_price() {
    let s = sec();
    let mut book = Orderbook::new(&s, 100);
    book.place_order(Order::new(false, Some(101), &s, 3)).unwrap();
    let buy = book.place_order(Order::new(true, Some(102), &s, 10)).unwrap();
    assert_eq!(book.execution_log().len(), 1);
    let rest = book.get_order(buy).unwrap();
    assert_eq!(rest.remaining(), 7);
    assert_eq!(book.best_bid(), Some(102));
    assert_eq!(book.best_ask(), None);
}

#[test]
fn buy_collar_rejects_far_below_market() {
    // The collar guards a new worst bid: with market price 100, a bid of
    // 83 (83 * 12 < 100 * 10) is out of band; 84 is not.
    let s = sec();
    let mut book = Orderbook::new(&s, 100);
    book.place_order(Order::new(true, Some(98), &s, 10)).unwrap();
    let r = book.place_order(Order::new(true, Some(83), &s, 5));
    assert_eq!(r, Err(OrderbookError::PriceOutOfBand));
    assert_eq!(book.best_bid(), Some(98));
    assert_eq!(book.worst_bid(), Some(98));
    book.place_order(Order::new(true, Some(84), &s, 5)).unwrap();
    assert_eq!(book.worst_bid(), Some(84));
}

#[test]
fn sell_collar_rejects_far_above_market() {
    // Mirrored for asks: with market price 100, an ask of 121
    // (121 * 10 > 100 * 12) extending the worst bound is out of band;
    // 120 is not.
    let s = sec();
    let mut book = Orderbook::new(&s, 100);
    book.place_order(Order::new(false, Some(101), &s, 10)).unwrap();
    let r = book.place_order(Order::new(false, Some(121), &s, 5));
    assert_eq!(r, Err(OrderbookError::PriceOutOfBand));
    assert_eq!(book.best_ask(), Some(101));
    assert_eq!(book.worst_ask(), Some(101));
    book.place_order(Order::new(false, Some(120), &s, 5)).unwrap();
    assert_eq!(book.worst_ask(), Some(120));
}

#[test]
fn collar_does_not_guard_a_first_or_best_price() {
    // Only a new worst bound is collared: a first resting price, however
    // far from the market, is a new best and is admitted.
    let s = sec();
    let mut book = Orderbook::new(&s, 100);
    let id = book.place_order(Order::new(true, Some(10), &s, 5)).unwrap();
    assert!(book.get_order(id).is_some());
    assert_eq!(book.best_bid(), Some(10));
}

#[test]
fn cancel_advances_best_past_emptied_level() {
    let s = sec();
    let mut book = Orderbook::new(&s, 100);
    let top = book.place_order(Order::new(true, Some(98), &s, 10)).unwrap();
    let low = book.place_order(Order::new(true, Some(95), &s, 10)).unwrap();
    assert_eq!(book.best_bid(), Some(98));
    assert_eq!(book.cancel_order(top), Ok(()));
    assert_eq!(book.best_bid(), Some(95));
    assert_eq!(book.cancel_order(top), Err(OrderbookError::OrderNotFound));
    assert_eq!(book.cancel_order(low), Ok(()));
    assert_eq!(book.best_bid(), None);
    assert_eq!(book.worst_bid(), None);
}

#[test]
fn cancel_interior_keeps_bounds() {
    let s = sec();
    let mut book = Orderbook::new(&s, 100);
    let a = book.place_order(Order::new(true, Some(98), &s, 1)).unwrap();
    book.place_order(Order::new(true, Some(95), &s, 1)).unwrap();
    let mid = book.place_order(Order::new(true, Some(96), &s, 1)).unwrap();
    assert_eq!(book.cancel_order(mid), Ok(()));
    assert_eq!(book.best_bid(), Some(98));
    assert_eq!(book.worst_bid(), Some(95));
    assert_eq!(book.cancel_order(a), Ok(()));
    assert_eq!(book.best_bid(), Some(95));
}

#[test]
fn cancel_of_unknown_id_is_not_found() {
    let s = sec();
    let mut book = Orderbook::new(&s, 100);
    assert_eq!(book.cancel_order(0), Err(OrderbookError::OrderNotFound));
    assert_eq!(book.cancel_order(-7), Err(OrderbookError::OrderNotFound));
}

#[test]
fn fully_filled_order_cannot_be_cancelled() {
    let s = sec();
    let mut book = Orderbook::new(&s, 100);
    let buy = book.place_order(Order::new(true, Some(98), &s, 5)).unwrap();
    book.place_order(Order::new(false, Some(98), &s, 5)).unwrap();
    assert!(book.get_order(buy).is_none());
    assert_eq!(book.cancel_order(buy), Err(OrderbookError::OrderNotFound));
}

#[test]
fn conservation_of_traded_quantity() {
    // The sum of execution quantities against one order never exceeds
    // its admitted quantity.
    let s = sec();
    let mut book = Orderbook::new(&s, 100);
    let big = book.place_order(Order::new(true, Some(100), &s, 10)).unwrap();
    book.place_order(Order::new(false, Some(100), &s, 4)).unwrap();
    book.place_order(Order::new(false, Some(99), &s, 4)).unwrap();
    book.place_order(Order::new(false, Some(98), &s, 4)).unwrap();
    let total: i64 = book
        .execution_log()
        .iter()
        .map(|e| if e.buying_order_id == big { e.quantity } else { 0 })
        .sum();
    assert_eq!(total, 10);
    assert!(book.get_order(big).is_none());
    // the third sell's remainder rests on the ask side
    assert_eq!(book.best_ask(), Some(98));
}

#[test]
fn market_price_follows_last_execution() {
    let s = sec();
    let mut book = Orderbook::new(&s, 100);
    book.place_order(Order::new(true, Some(98), &s, 2)).unwrap();
    book.place_order(Order::new(true, Some(97), &s, 2)).unwrap();
    book.place_order(Order::new(false, Some(90), &s, 4)).unwrap();
    let log = book.execution_log();
    assert_eq!(log.len(), 2);
    assert_eq!(log[0].price, 98);
    assert_eq!(log[1].price, 97);
    assert_eq!(book.market_price(), 97);
}

#[test]
fn interior_slot_at_vacated_best_signals_new_best() {
    // Empty the best level by matching, then refill the same tick: the
    // refilled price is the best again and can cross immediately.
    let s = sec();
    let mut book = Orderbook::new(&s, 100);
    book.place_order(Order::new(false, Some(101), &s, 2)).unwrap();
    book.place_order(Order::new(false, Some(103), &s, 2)).unwrap();
    book.place_order(Order::new(true, Some(101), &s, 2)).unwrap();
    assert_eq!(book.best_ask(), Some(103));
    // 101 now lies inside [best 103 .. worst 103]? No: it is better than
    // the best, so a fresh ask at 101 opens a new best level.
    let again = book.place_order(Order::new(false, Some(101), &s, 2)).unwrap();
    assert_eq!(book.best_ask(), Some(101));
    assert!(book.get_order(again).is_some());
}
