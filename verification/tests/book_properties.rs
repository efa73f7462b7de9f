use foothold::amount::Amount;
use foothold::order::{Order, OrderType, Side};
use foothold::order_book::OrderBook;

fn dec(n: i64) -> Amount {
    Amount::from_int(n)
}

fn limit(id: u128, side: Side, price: Amount, qty: Amount) -> Order {
    Order {
        id,
        symbol: "AAPL".to_string(),
        side,
        order_type: OrderType::Limit,
        price: Some(price),
        quantity: qty,
        remaining: qty,
        sequence_id: id as u64,
        timestamp_us: 0,
    }
}

fn market(id: u128, side: Side, qty: Amount) -> Order {
    Order {
        id,
        symbol: "AAPL".to_string(),
        side,
        order_type: OrderType::Market,
        price: None,
        quantity: qty,
        remaining: qty,
        sequence_id: id as u64,
        timestamp_us: 0,
    }
}

fn levels(book: &OrderBook) -> (Vec<(Amount, Amount)>, Vec<(Amount, Amount)>) {
    let d = book.depth(usize::MAX);
    (d.bids, d.asks)
}

#[test]
fn book_stays_uncrossed_after_a_sweep() {
    let mut book = OrderBook::new("AAPL");
    book.add_limit_order(limit(1, Side::Ask, dec(101), dec(5)));
    book.add_limit_order(limit(2, Side::Ask, dec(102), dec(5)));
    book.add_limit_order(limit(3, Side::Ask, dec(104), dec(5)));
    book.add_limit_order(limit(4, Side::Bid, dec(99), dec(5)));
    let r = book.add_limit_order(limit(5, Side::Bid, dec(103), dec(20)));
    assert_eq!(r.trades.len(), 2);
    assert_eq!(r.trades[0].price, dec(101));
    assert_eq!(r.trades[1].price, dec(102));
    assert_eq!(r.remaining.unwrap().remaining, dec(10));
    assert_eq!(book.best_bid(), Some(dec(103)));
    assert_eq!(book.best_ask(), Some(dec(104)));
    assert!(book.best_bid().unwrap().lt(&book.best_ask().unwrap()));
}

#[test]
fn trades_and_rest_add_up_to_the_quantity() {
    let mut book = OrderBook::new("AAPL");
    book.add_limit_order(limit(1, Side::Bid, dec(100), dec(3)));
    book.add_limit_order(limit(2, Side::Bid, dec(99), dec(4)));
    book.add_limit_order(limit(3, Side::Bid, dec(98), dec(100)));
    let r = book.add_limit_order(limit(4, Side::Ask, dec(99), dec(10)));
    let mut total = Amount::zero();
    for t in &r.trades {
        assert!(t.price.le(&dec(100)) && dec(99).le(&t.price));
        assert_eq!(t.taker_order_id, 4);
        total = total.plus(t.quantity);
    }
    let left = r.remaining.unwrap().remaining;
    assert_eq!(total.plus(left), dec(10));
    assert_eq!(left, dec(3));
    assert_eq!(book.best_ask(), Some(dec(99)));
    assert_eq!(book.best_bid(), Some(dec(98)));
}

#[test]
fn fractional_fills_are_exact() {
    let mut book = OrderBook::new("AAPL");
    book.add_limit_order(limit(1, Side::Ask, dec(100), Amount::new(25, 1).unwrap()));
    let r = book.add_limit_order(limit(2, Side::Bid, dec(100), dec(10)));
    assert_eq!(r.trades[0].quantity, Amount::new(25, 1).unwrap());
    assert_eq!(r.remaining.unwrap().remaining, Amount::new(75, 1).unwrap());
}

#[test]
fn cancel_right_after_resting_restores_the_book() {
    let mut book = OrderBook::new("AAPL");
    book.add_limit_order(limit(1, Side::Bid, dec(100), dec(3)));
    book.add_limit_order(limit(2, Side::Ask, dec(105), dec(4)));
    let before = levels(&book);
    let r = book.add_limit_order(limit(3, Side::Bid, dec(100), dec(6)));
    assert!(r.trades.is_empty());
    let cancelled = book.cancel_order(3).unwrap();
    assert_eq!(cancelled.remaining, dec(6));
    assert_eq!(levels(&book), before);
}

#[test]
fn same_value_prices_share_a_level() {
    let mut book = OrderBook::new("AAPL");
    book.add_limit_order(limit(1, Side::Ask, Amount::new(1000, 1).unwrap(), dec(2)));
    book.add_limit_order(limit(2, Side::Ask, dec(100), dec(3)));
    let d = book.depth(5);
    assert_eq!(d.asks.len(), 1);
    assert_eq!(d.asks[0], (dec(100), dec(5)));
}

#[test]
fn zero_quantity_limit_order_neither_trades_nor_rests() {
    let mut book = OrderBook::new("AAPL");
    book.add_limit_order(limit(1, Side::Ask, dec(100), dec(5)));
    let r = book.add_limit_order(limit(2, Side::Bid, dec(100), dec(0)));
    assert!(r.trades.is_empty());
    assert!(r.remaining.is_none());
    assert_eq!(book.best_bid(), None);
    assert_eq!(levels(&book).1, vec![(dec(100), dec(5))]);
}

#[test]
fn market_sell_sweeps_bids_best_first() {
    let mut book = OrderBook::new("AAPL");
    book.add_limit_order(limit(1, Side::Bid, dec(98), dec(5)));
    book.add_limit_order(limit(2, Side::Bid, dec(99), dec(5)));
    let r = book.add_market_order(market(3, Side::Ask, dec(7)));
    assert_eq!(r.trades.len(), 2);
    assert_eq!(r.trades[0].maker_order_id, 2);
    assert_eq!(r.trades[1].maker_order_id, 1);
    assert_eq!(r.trades[1].quantity, dec(2));
    assert!(r.remaining.is_none());
    assert_eq!(levels(&book).0, vec![(dec(98), dec(3))]);
}

#[test]
fn market_order_never_rests() {
    let mut book = OrderBook::new("AAPL");
    let r = book.add_market_order(market(1, Side::Ask, dec(7)));
    assert_eq!(r.remaining.unwrap().remaining, dec(7));
    assert_eq!(book.best_ask(), None);
    assert_eq!(book.best_bid(), None);
}

#[test]
fn depth_of_zero_levels_is_empty() {
    let mut book = OrderBook::new("AAPL");
    book.add_limit_order(limit(1, Side::Bid, dec(98), dec(5)));
    let d = book.depth(0);
    assert!(d.bids.is_empty());
}

#[test]
fn spread_with_one_side_empty_is_none() {
    let mut book = OrderBook::new("AAPL");
    book.add_limit_order(limit(1, Side::Bid, dec(98), dec(5)));
    assert_eq!(book.spread(), None);
}

#[test]
fn partially_filled_resting_order_keeps_its_place() {
    let mut book = OrderBook::new("AAPL");
    book.add_limit_order(limit(1, Side::Ask, dec(100), dec(5)));
    book.add_limit_order(limit(2, Side::Ask, dec(100), dec(5)));
    book.add_limit_order(limit(3, Side::Bid, dec(100), dec(2)));
    let r = book.add_limit_order(limit(4, Side::Bid, dec(100), dec(4)));
    assert_eq!(r.trades.len(), 2);
    assert_eq!(r.trades[0].maker_order_id, 1);
    assert_eq!(r.trades[0].quantity, dec(3));
    assert_eq!(r.trades[1].maker_order_id, 2);
    assert_eq!(r.trades[1].quantity, dec(1));
}

#[test]
fn spread_is_positive_even_when_the_difference_rounds() {
    let mut book = OrderBook::new("AAPL");
    let high = Amount::new(79228162514264337593543950335, 0).unwrap();
    let half = Amount::new(5, 1).unwrap();
    book.add_limit_order(limit(1, Side::Ask, high, dec(1)));
    book.add_limit_order(limit(2, Side::Bid, half, dec(1)));
    let s = book.spread().unwrap();
    assert!(Amount::zero().lt(&s));
    // the exact difference 79228162514264337593543950334.5 needs 97 bits
    assert_eq!(s.scale(), 0);
}

#[test]
fn depth_levels_all_have_positive_totals() {
    let mut book = OrderBook::new("AAPL");
    book.add_limit_order(limit(1, Side::Ask, dec(101), dec(3)));
    book.add_limit_order(limit(2, Side::Ask, dec(101), dec(2)));
    book.add_limit_order(limit(3, Side::Bid, dec(99), dec(4)));
    book.add_limit_order(limit(4, Side::Bid, dec(101), dec(4)));
    let (bids, asks) = levels(&book);
    assert_eq!(asks, vec![(dec(101), dec(1))]);
    assert_eq!(bids, vec![(dec(99), dec(4))]);
    for (_, q) in asks.iter().chain(bids.iter()) {
        assert!(Amount::zero().lt(q));
    }
    let shallow = book.depth(0);
    assert!(shallow.asks.is_empty() && shallow.bids.is_empty());
}

#[test]
fn a_level_keeps_the_price_it_opened_at() {
    let mut book = OrderBook::new("AAPL");
    let opening = Amount::new(1000, 1).unwrap();
    book.add_limit_order(limit(1, Side::Ask, opening, dec(2)));
    book.add_limit_order(limit(2, Side::Ask, dec(100), dec(3)));
    // the order that opened the level is filled; the level stays at 100.0
    book.add_market_order(market(3, Side::Bid, dec(2)));
    let best = book.best_ask().unwrap();
    assert_eq!(best.mantissa(), 1000);
    assert_eq!(best.scale(), 1);
    let d = book.depth(1);
    assert_eq!(d.asks[0].0.scale(), 1);
    assert_eq!(d.asks[0].1, dec(3));
}

#[test]
fn cancel_follows_the_index_for_a_reused_id() {
    let mut book = OrderBook::new("AAPL");
    book.add_limit_order(limit(7, Side::Ask, dec(101), dec(1)));
    book.add_limit_order(limit(7, Side::Ask, dec(102), dec(1)));
    // the index holds the order rested last under the id
    let c = book.cancel_order(7).unwrap();
    assert_eq!(c.price, Some(dec(102)));
    // the id has left the index
    assert!(book.cancel_order(7).is_none());
    assert_eq!(book.best_ask(), Some(dec(101)));
}

#[test]
fn a_fill_takes_the_id_out_of_the_index() {
    let mut book = OrderBook::new("AAPL");
    book.add_limit_order(limit(5, Side::Ask, dec(101), dec(1)));
    book.add_limit_order(limit(6, Side::Bid, dec(101), dec(1)));
    assert!(book.cancel_order(5).is_none());
    assert_eq!(book.best_ask(), None);
}

#[test]
fn cancel_returns_the_order_resting_under_the_id_and_only_once() {
    let mut book = OrderBook::new("AAPL");
    book.add_limit_order(limit(1, Side::Bid, dec(99), dec(4)));
    book.add_limit_order(limit(2, Side::Bid, dec(98), dec(5)));
    book.add_limit_order(limit(3, Side::Ask, dec(101), dec(6)));
    let c = book.cancel_order(2).unwrap();
    assert_eq!((c.id, c.remaining), (2, dec(5)));
    assert!(book.cancel_order(2).is_none());
    assert!(book.cancel_order(9).is_none());
    let (bids, asks) = levels(&book);
    assert_eq!(bids, vec![(dec(99), dec(4))]);
    assert_eq!(asks, vec![(dec(101), dec(6))]);
}

#[test]
fn add_then_cancel_leaves_quotes_and_depth_as_they_were() {
    let mut book = OrderBook::new("AAPL");
    book.add_limit_order(limit(1, Side::Bid, Amount::new(990, 1).unwrap(), dec(4)));
    book.add_limit_order(limit(2, Side::Ask, dec(101), dec(6)));
    let before = (book.best_bid(), book.best_ask(), levels(&book));
    let r = book.add_limit_order(limit(3, Side::Bid, dec(99), dec(2)));
    assert!(r.trades.is_empty());
    let c = book.cancel_order(3).unwrap();
    assert_eq!(c.remaining, dec(2));
    let after = (book.best_bid(), book.best_ask(), levels(&book));
    assert_eq!(before, after);
    assert_eq!(book.best_bid().unwrap().scale(), 1);
}

#[test]
fn depth_levels_are_in_price_order_and_cut_at_the_count() {
    let mut book = OrderBook::new("AAPL");
    for (id, p) in [(1u128, 103i64), (2, 101), (3, 102), (4, 101)] {
        book.add_limit_order(limit(id, Side::Ask, dec(p), dec(1)));
    }
    for (id, p) in [(5u128, 97i64), (6, 99), (7, 98)] {
        book.add_limit_order(limit(id, Side::Bid, dec(p), dec(1)));
    }
    let d = book.depth(2);
    assert_eq!(d.asks, vec![(dec(101), dec(2)), (dec(102), dec(1))]);
    assert_eq!(d.bids, vec![(dec(99), dec(1)), (dec(98), dec(1))]);
    let all = book.depth(10);
    assert_eq!(all.asks.len(), 3);
    assert_eq!(&all.asks[..2], &d.asks[..]);
    assert_eq!(all.asks[0].0, book.best_ask().unwrap());
    assert_eq!(all.bids[0].0, book.best_bid().unwrap());
}
