use foothold::amount::Amount;
use foothold::exchange::{Exchange, PlaceOrderRequest, STATUS_ACCEPTED, STATUS_OK};
use uuid::Uuid;

fn dec(n: i64) -> Amount {
    Amount::from_int(n)
}

// --- helpers ---

fn seed_wallet(state: &mut Exchange, user_id: u128, cash: Amount) {
    state.risk.add_wallet(user_id, cash);
}

fn seed_position(state: &mut Exchange, user_id: u128, symbol: &str, qty: Amount) {
    state.risk.add_position(user_id, symbol.to_string(), qty).unwrap();
}

fn request(user_id: u128, side: &str, order_type: &str, price: i64, qty: i64) -> PlaceOrderRequest {
    PlaceOrderRequest {
        user_id,
        symbol: "AAPL".to_string(),
        side: side.to_string(),
        order_type: order_type.to_string(),
        price: Some(dec(price)),
        quantity: dec(qty),
    }
}

fn limit_buy(user_id: u128, price: i64, qty: i64) -> PlaceOrderRequest {
    request(user_id, "buy", "limit", price, qty)
}

fn limit_sell(user_id: u128, price: i64, qty: i64) -> PlaceOrderRequest {
    request(user_id, "sell", "limit", price, qty)
}

/// The status and order id the gateway answers a placement with.
fn place(state: &mut Exchange, req: PlaceOrderRequest) -> (u16, Option<u128>) {
    match state.place_order(req) {
        Ok(id) => (STATUS_ACCEPTED, Some(id)),
        Err(e) => (e.status(), None),
    }
}

/// The status the gateway answers a cancellation with.
fn cancel(state: &mut Exchange, id: u128) -> u16 {
    match state.cancel_order(id) {
        Ok(()) => STATUS_OK,
        Err(e) => e.status(),
    }
}

// --- place_order ---

#[test]
fn place_buy_with_funds_returns_202_and_order_id() {
    let mut state = Exchange::new();
    let user = Uuid::new_v4().as_u128();
    seed_wallet(&mut state, user, dec(1000));

    let (status, body) = place(&mut state, limit_buy(user, 100, 5));

    assert_eq!(status, 202);
    assert!(body.is_some(), "response should carry an order_id");
}

#[test]
fn place_buy_insufficient_funds_returns_400() {
    let mut state = Exchange::new();
    let user = Uuid::new_v4().as_u128();
    seed_wallet(&mut state, user, dec(100)); // needs 500

    let (status, _) = place(&mut state, limit_buy(user, 100, 5));

    assert_eq!(status, 400);
}

#[test]
fn place_invalid_side_returns_422() {
    let mut state = Exchange::new();
    let user = Uuid::new_v4().as_u128();
    seed_wallet(&mut state, user, dec(1000));

    let bad = request(user, "sideways", "limit", 100, 5);
    let (status, _) = place(&mut state, bad);

    assert_eq!(status, 422);
}

#[test]
fn place_buy_locks_funds() {
    let mut state = Exchange::new();
    let user = Uuid::new_v4().as_u128();
    seed_wallet(&mut state, user, dec(1000));

    place(&mut state, limit_buy(user, 100, 5)); // locks 500

    let wallet = state.risk.wallet(user).unwrap();
    assert_eq!(wallet.cash_available, dec(500));
    assert_eq!(wallet.cash_locked, dec(500));
}

#[test]
fn crossing_orders_match_and_clear_book() {
    let mut state = Exchange::new();
    let seller = Uuid::new_v4().as_u128();
    let buyer = Uuid::new_v4().as_u128();
    seed_wallet(&mut state, seller, dec(0));
    seed_position(&mut state, seller, "AAPL", dec(10));
    seed_wallet(&mut state, buyer, dec(2000));

    // resting sell, then a fully-crossing buy
    place(&mut state, limit_sell(seller, 100, 10));
    place(&mut state, limit_buy(buyer, 100, 10));

    let book = state.book("AAPL").expect("book should exist after trading");
    assert_eq!(book.best_ask(), None, "ask should be fully consumed");
    assert_eq!(book.best_bid(), None, "buy should fully fill, leaving nothing resting");
}

// --- cancel_order ---

#[test]
fn cancel_resting_order_returns_200() {
    let mut state = Exchange::new();
    let user = Uuid::new_v4().as_u128();
    seed_wallet(&mut state, user, dec(1000));

    // non-crossing buy (empty book) -> rests
    let (_, body) = place(&mut state, limit_buy(user, 50, 5));
    let id = body.unwrap();

    let status = cancel(&mut state, id);
    assert_eq!(status, 200);
}

#[test]
fn cancel_releases_locked_funds() {
    let mut state = Exchange::new();
    let user = Uuid::new_v4().as_u128();
    seed_wallet(&mut state, user, dec(1000));

    let (_, body) = place(&mut state, limit_buy(user, 50, 5)); // locks 250
    let id = body.unwrap();

    cancel(&mut state, id);

    let wallet = state.risk.wallet(user).unwrap();
    assert_eq!(wallet.cash_available, dec(1000));
    assert_eq!(wallet.cash_locked, dec(0));
}

#[test]
fn cancel_unknown_order_returns_404() {
    let mut state = Exchange::new();
    let status = cancel(&mut state, Uuid::new_v4().as_u128());
    assert_eq!(status, 404);
}

#[test]
fn cancel_removes_order_from_book() {
    let mut state = Exchange::new();
    let user = Uuid::new_v4().as_u128();
    seed_wallet(&mut state, user, dec(1000));

    let (_, body) = place(&mut state, limit_buy(user, 50, 5));
    let id = body.unwrap();

    assert_eq!(state.book("AAPL").unwrap().best_bid(), Some(dec(50)));

    cancel(&mut state, id);

    assert_eq!(state.book("AAPL").unwrap().best_bid(), None);
}
