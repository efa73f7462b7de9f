use foothold::amount::Amount;
use foothold::exchange::{AppError, Exchange, PlaceOrderRequest};

fn dec(n: i64) -> Amount {
    Amount::from_int(n)
}

fn req(user_id: u128, side: &str, order_type: &str, price: Option<Amount>, qty: Amount) -> PlaceOrderRequest {
    PlaceOrderRequest {
        user_id,
        symbol: "AAPL".to_string(),
        side: side.to_string(),
        order_type: order_type.to_string(),
        price,
        quantity: qty,
    }
}

#[test]
fn invalid_order_type_is_refused_with_its_message() {
    let mut ex = Exchange::new();
    ex.risk.add_wallet(1, dec(1000));
    match ex.place_order(req(1, "buy", "stop", Some(dec(10)), dec(1))) {
        Err(AppError::BadRequest(m)) => assert_eq!(m, "invalid order_type: stop"),
        _ => panic!("expected a bad request"),
    }
    assert_eq!(ex.sequencer.log.len(), 0);
}

#[test]
fn invalid_side_message_names_the_side() {
    let mut ex = Exchange::new();
    match ex.place_order(req(1, "sideways", "limit", Some(dec(10)), dec(1))) {
        Err(e) => {
            assert_eq!(e.status(), 422);
            match e {
                AppError::BadRequest(m) => assert_eq!(m, "invalid side: sideways"),
                _ => panic!("expected a bad request"),
            }
        }
        Ok(_) => panic!("expected a refusal"),
    }
}

#[test]
fn limit_order_without_price_is_refused() {
    let mut ex = Exchange::new();
    ex.risk.add_wallet(1, dec(1000));
    match ex.place_order(req(1, "buy", "limit", None, dec(1))) {
        Err(AppError::BadRequest(m)) => assert_eq!(m, "limit order requires a price"),
        _ => panic!("expected a bad request"),
    }
    assert_eq!(ex.risk.wallet(1).unwrap().cash_locked, dec(0));
    assert_eq!(ex.sequencer.log.len(), 0);
}

#[test]
fn market_buy_without_price_locks_the_cost_of_the_asks_it_takes() {
    let mut ex = Exchange::new();
    ex.risk.add_wallet(1, dec(0));
    ex.risk.add_position(1, "AAPL".to_string(), dec(10)).unwrap();
    ex.place_order_with_id(req(1, "sell", "limit", Some(dec(100)), dec(3)), 51).unwrap();
    ex.place_order_with_id(req(1, "sell", "limit", Some(dec(101)), dec(2)), 52).unwrap();
    ex.risk.add_wallet(2, dec(1000));
    let id = ex.place_order_with_id(req(2, "buy", "market", None, dec(4)), 53).unwrap();
    assert_eq!(id, 53);
    let w = ex.risk.wallet(2).unwrap();
    // 3 at 100 and 1 at 101
    assert_eq!(w.cash_locked, dec(401));
    assert_eq!(w.cash_available, dec(599));
    let last = &ex.sequencer.log[2];
    assert_eq!(last.order.price, None);
    assert_eq!(ex.book("AAPL").unwrap().best_ask(), Some(dec(101)));
}

#[test]
fn market_buy_without_price_beyond_its_cash_is_refused() {
    let mut ex = Exchange::new();
    ex.risk.add_wallet(1, dec(0));
    ex.risk.add_position(1, "AAPL".to_string(), dec(10)).unwrap();
    ex.place_order_with_id(req(1, "sell", "limit", Some(dec(100)), dec(3)), 61).unwrap();
    ex.risk.add_wallet(2, dec(250));
    match ex.place_order_with_id(req(2, "buy", "market", None, dec(3)), 62) {
        Err(e) => assert_eq!(e.status(), 400),
        Ok(_) => panic!("300 is more than 250"),
    }
    assert_eq!(ex.sequencer.log.len(), 1);
    assert_eq!(ex.book("AAPL").unwrap().best_ask(), Some(dec(100)));
}

#[test]
fn market_buy_without_price_on_an_empty_book_locks_nothing() {
    let mut ex = Exchange::new();
    ex.risk.add_wallet(2, dec(10));
    ex.place_order_with_id(req(2, "buy", "market", None, dec(3)), 71).unwrap();
    assert_eq!(ex.risk.wallet(2).unwrap().cash_locked, dec(0));
    assert_eq!(ex.sequencer.log.len(), 1);
}

#[test]
fn market_sell_without_price_locks_its_stock() {
    let mut ex = Exchange::new();
    ex.risk.add_wallet(1, dec(0));
    ex.risk.add_position(1, "AAPL".to_string(), dec(10)).unwrap();
    ex.risk.add_wallet(2, dec(1000));
    ex.place_order_with_id(req(2, "buy", "limit", Some(dec(100)), dec(2)), 81).unwrap();
    ex.place_order_with_id(req(1, "sell", "market", None, dec(4)), 82).unwrap();
    let p = ex.risk.wallet(1).unwrap().position("AAPL").unwrap();
    assert_eq!((p.available, p.locked), (dec(6), dec(4)));
    assert_eq!(ex.book("AAPL").unwrap().best_bid(), None);
}

#[test]
fn unknown_user_is_a_risk_refusal() {
    let mut ex = Exchange::new();
    match ex.place_order(req(1, "buy", "limit", Some(dec(10)), dec(1))) {
        Err(e) => assert_eq!(e.status(), 400),
        Ok(_) => panic!("expected a refusal"),
    }
    assert!(ex.book("AAPL").is_none());
}

#[test]
fn placed_orders_are_sequenced_in_turn() {
    let mut ex = Exchange::new();
    ex.risk.add_wallet(1, dec(1000));
    let a = ex.place_order_with_id(req(1, "buy", "limit", Some(dec(10)), dec(1)), 11).unwrap();
    let b = ex.place_order_with_id(req(1, "buy", "limit", Some(dec(9)), dec(1)), 12).unwrap();
    assert_eq!((a, b), (11, 12));
    assert_eq!(ex.sequencer.log[0].sequence_id, 1);
    assert_eq!(ex.sequencer.log[1].sequence_id, 2);
    assert_eq!(ex.sequencer.log[1].order.id, 12);
    assert_eq!(ex.book("AAPL").unwrap().best_bid(), Some(dec(10)));
}

#[test]
fn cancel_of_a_filled_order_is_not_found() {
    let mut ex = Exchange::new();
    ex.risk.add_wallet(1, dec(0));
    ex.risk.add_position(1, "AAPL".to_string(), dec(10)).unwrap();
    ex.risk.add_wallet(2, dec(1000));
    let sell = ex.place_order_with_id(req(1, "sell", "limit", Some(dec(100)), dec(5)), 21).unwrap();
    ex.place_order_with_id(req(2, "buy", "limit", Some(dec(100)), dec(5)), 22).unwrap();
    match ex.cancel_order(sell) {
        Err(e) => assert_eq!(e.status(), 404),
        Ok(()) => panic!("the order was filled"),
    }
}

#[test]
fn cancel_of_resting_sell_releases_its_stock() {
    let mut ex = Exchange::new();
    ex.risk.add_wallet(1, dec(0));
    ex.risk.add_position(1, "AAPL".to_string(), dec(10)).unwrap();
    let id = ex.place_order_with_id(req(1, "sell", "limit", Some(dec(100)), dec(4)), 31).unwrap();
    let p = ex.risk.wallet(1).unwrap().position("AAPL").unwrap();
    assert_eq!((p.available, p.locked), (dec(6), dec(4)));
    ex.cancel_order(id).unwrap();
    let p = ex.risk.wallet(1).unwrap().position("AAPL").unwrap();
    assert_eq!((p.available, p.locked), (dec(10), dec(0)));
    assert_eq!(ex.book("AAPL").unwrap().best_ask(), None);
    match ex.cancel_order(id) {
        Err(e) => assert_eq!(e.status(), 404),
        Ok(()) => panic!("already cancelled"),
    }
}

#[test]
fn market_orders_are_not_kept_for_cancellation() {
    let mut ex = Exchange::new();
    ex.risk.add_wallet(1, dec(1000));
    let id = ex.place_order_with_id(req(1, "buy", "market", Some(dec(10)), dec(1)), 41).unwrap();
    assert!(matches!(ex.cancel_order(id), Err(AppError::NotFound)));
}
