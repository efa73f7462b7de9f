use foothold::amount::Amount;
use foothold::order::{Order, OrderType, Side};
use foothold::risk::{RiskEngine, RiskError};
use foothold::sequencer::{replay, Sequencer};

fn dec(n: i64) -> Amount {
    Amount::from_int(n)
}

fn order(id: u128, side: Side, order_type: OrderType, price: Option<Amount>, qty: Amount) -> Order {
    Order {
        id,
        symbol: "AAPL".to_string(),
        side,
        order_type,
        price,
        quantity: qty,
        remaining: qty,
        sequence_id: 0,
        timestamp_us: 0,
    }
}

#[test]
fn sequenced_entry_is_returned_and_logged() {
    let mut seq = Sequencer::new();
    assert_eq!(seq.next_sequence_id(), 1);
    let e = seq.sequence(order(7, Side::Bid, OrderType::Limit, Some(dec(10)), dec(1)));
    assert_eq!(e.sequence_id, 1);
    assert_eq!(e.order.sequence_id, 1);
    assert_eq!(e.order.id, 7);
    assert_eq!(seq.log[0].order.id, 7);
    assert_eq!(seq.next_sequence_id(), 2);
}

#[test]
fn replay_matches_the_live_book() {
    let mut seq = Sequencer::new();
    let mut live = foothold::order_book::OrderBook::new("AAPL");
    let orders = vec![
        order(1, Side::Ask, OrderType::Limit, Some(dec(101)), dec(10)),
        order(2, Side::Bid, OrderType::Limit, Some(dec(99)), dec(4)),
        order(3, Side::Bid, OrderType::Market, None, dec(3)),
        order(4, Side::Bid, OrderType::Limit, Some(dec(102)), dec(9)),
    ];
    for o in orders {
        let e = seq.sequence(o);
        match e.order.order_type {
            OrderType::Limit => {
                live.add_limit_order(e.order);
            }
            OrderType::Market => {
                live.add_market_order(e.order);
            }
        }
    }
    let replayed = replay(&seq.log, "AAPL");
    let a = live.depth(10);
    let b = replayed.depth(10);
    assert_eq!(a.bids, b.bids);
    assert_eq!(a.asks, b.asks);
    assert_eq!(b.bids, vec![(dec(102), dec(2)), (dec(99), dec(4))]);
    assert!(b.asks.is_empty());
    assert_eq!(live.best_bid(), replayed.best_bid());
    assert_eq!(live.best_ask(), replayed.best_ask());
    assert_eq!(live.spread(), replayed.spread());
}

#[test]
fn release_right_after_a_sell_lock_gives_the_stock_back() {
    let mut engine = RiskEngine::new();
    engine.add_wallet(1, dec(5));
    engine.add_position(1, "MSFT".to_string(), dec(1)).unwrap();
    engine.add_position(1, "AAPL".to_string(), dec(7)).unwrap();
    engine.check_and_lock(1, "AAPL", foothold::risk::Side::Sell, dec(3), dec(4)).unwrap();
    engine.release(1, "AAPL", foothold::risk::Side::Sell, dec(3), dec(4)).unwrap();
    let w = engine.wallet(1).unwrap();
    let p = w.position("AAPL").unwrap();
    assert_eq!((p.available, p.locked), (dec(7), dec(0)));
    let m = w.position("MSFT").unwrap();
    assert_eq!((m.available, m.locked), (dec(1), dec(0)));
    assert_eq!((w.cash_available, w.cash_locked), (dec(5), dec(0)));
}

#[test]
fn lock_then_release_restores_fractional_cash() {
    let mut engine = RiskEngine::new();
    engine.add_wallet(1, dec(1000));
    let price = Amount::new(1005, 1).unwrap(); // 100.5
    engine.check_and_lock(1, "AAPL", foothold::risk::Side::Buy, price, dec(3)).unwrap();
    let w = engine.wallet(1).unwrap();
    assert_eq!(w.cash_available, Amount::new(6985, 1).unwrap());
    assert_eq!(w.cash_locked, Amount::new(3015, 1).unwrap());
    assert_eq!(w.cash_available.plus(w.cash_locked), dec(1000));
    engine.release(1, "AAPL", foothold::risk::Side::Buy, price, dec(3)).unwrap();
    let w = engine.wallet(1).unwrap();
    assert_eq!(w.cash_available, dec(1000));
    assert_eq!(w.cash_locked, dec(0));
}

#[test]
fn failed_lock_changes_nothing_and_reports_the_shortfall() {
    let mut engine = RiskEngine::new();
    engine.add_wallet(1, dec(100));
    match engine.check_and_lock(1, "AAPL", foothold::risk::Side::Buy, dec(30), dec(4)) {
        Err(RiskError::InsufficientFunds { needed, available }) => {
            assert_eq!(needed, dec(120));
            assert_eq!(available, dec(100));
        }
        _ => panic!("expected insufficient funds"),
    }
    let w = engine.wallet(1).unwrap();
    assert_eq!(w.cash_available, dec(100));
    assert_eq!(w.cash_locked, dec(0));
}

#[test]
fn insufficient_stock_names_the_symbol() {
    let mut engine = RiskEngine::new();
    engine.add_wallet(1, dec(0));
    engine.add_position(1, "AAPL".to_string(), dec(2)).unwrap();
    match engine.check_and_lock(1, "AAPL", foothold::risk::Side::Sell, dec(30), dec(4)) {
        Err(RiskError::InsufficientStock { symbol, needed, available }) => {
            assert_eq!(symbol, "AAPL");
            assert_eq!(needed, dec(4));
            assert_eq!(available, dec(2));
        }
        _ => panic!("expected insufficient stock"),
    }
}

#[test]
fn no_position_names_the_symbol() {
    let mut engine = RiskEngine::new();
    engine.add_wallet(1, dec(0));
    engine.add_position(1, "MSFT".to_string(), dec(2)).unwrap();
    match engine.release(1, "AAPL", foothold::risk::Side::Sell, dec(30), dec(1)) {
        Err(RiskError::NoPosition { symbol }) => assert_eq!(symbol, "AAPL"),
        _ => panic!("expected no position"),
    }
}

#[test]
fn release_of_unknown_user_is_user_not_found() {
    let mut engine = RiskEngine::new();
    let r = engine.release(9, "AAPL", foothold::risk::Side::Buy, dec(1), dec(1));
    assert!(matches!(r, Err(RiskError::UserNotFound)));
}

#[test]
fn add_position_credits_an_existing_position() {
    let mut engine = RiskEngine::new();
    engine.add_wallet(1, dec(0));
    engine.add_position(1, "AAPL".to_string(), dec(10)).unwrap();
    engine.check_and_lock(1, "AAPL", foothold::risk::Side::Sell, dec(1), dec(3)).unwrap();
    engine.add_position(1, "AAPL".to_string(), dec(5)).unwrap();
    let p = engine.wallet(1).unwrap().position("AAPL").unwrap();
    assert_eq!(p.available, dec(12));
    assert_eq!(p.locked, dec(3));
    assert_eq!(engine.wallet(1).unwrap().positions.len(), 1);
    assert!(engine.wallet(1).unwrap().position("MSFT").is_none());
}

#[test]
fn add_wallet_replaces_an_existing_wallet() {
    let mut engine = RiskEngine::new();
    engine.add_wallet(1, dec(10));
    engine.check_and_lock(1, "AAPL", foothold::risk::Side::Buy, dec(1), dec(5)).unwrap();
    engine.add_wallet(1, dec(7));
    let w = engine.wallet(1).unwrap();
    assert_eq!(w.cash_available, dec(7));
    assert_eq!(w.cash_locked, dec(0));
    assert!(engine.wallet(2).is_none());
}

#[test]
fn sequencer_numbers_its_log_from_one() {
    let mut seq = Sequencer::new();
    for k in 0..3u128 {
        seq.sequence(order(k + 1, Side::Ask, OrderType::Limit, Some(dec(100 + k as i64)), dec(1)));
    }
    assert_eq!(seq.next_sequence_id(), 4);
    for (i, e) in seq.log.iter().enumerate() {
        assert_eq!(e.sequence_id, i as u64 + 1);
        assert_eq!(e.order.sequence_id, e.sequence_id);
    }
    let book = replay(&seq.log, "AAPL");
    assert_eq!(book.best_ask(), Some(dec(100)));
}
