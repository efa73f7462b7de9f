//! Laws of order entry, stated over `placement` and `cancellation`.
use vstd::prelude::*;
use crate::book_laws::{law_cancel_undoes_resting_order, opposite_queue};
use crate::exchange::{
    book_meta, book_state, books_wf, cancellation, funds_result, has_book, is_book_for, lock_terms, parse_order_type,
    parse_side, placement, request_order, AppError, Exchange, OpenOrder, PlaceOrderRequest,
};
use crate::order::{Order, OrderId, OrderType, Side};
use crate::order_book::{book_wf, cancel_spec, crosses, ids_of, is_resting, limit_spec, match_dropped, match_spec};
use crate::amount::{exact_add_sub, Amount};
use crate::risk::{
    law_release_succeeds_after_lock, lock_outcome, lock_release_exact, release_outcome, same_balances, symbol_index,
};
use crate::risk::Side as FundsSide;

verus! {

/// Law: an order is sequenced (and reaches a book) only once its funds
/// were locked; a refused order leaves the log as it was.
pub proof fn law_sequenced_only_when_funded(
    old: Exchange,
    new: Exchange,
    req: PlaceOrderRequest,
    id: OrderId,
    r: Result<OrderId, AppError>,
)
    requires
        placement(&old, &new, req, id, r),
        new.sequencer.log@.len() != old.sequencer.log@.len(),
    ensures
        r == Ok::<OrderId, AppError>(id),
        parse_side(req.side@) is Some,
        parse_order_type(req.order_type@) is Some,
        lock_terms(
            old.books@,
            req,
            id,
            parse_side(req.side@).unwrap().1,
            parse_order_type(req.order_type@).unwrap(),
        ) is Some,
        old.risk@.contains_key(req.user_id),
        ({
            let t = lock_terms(
                old.books@,
                req,
                id,
                parse_side(req.side@).unwrap().1,
                parse_order_type(req.order_type@).unwrap(),
            ).unwrap();
            lock_outcome(old.risk@[req.user_id]@, req.symbol@, parse_side(req.side@).unwrap().1, t.0, t.1) is Ok
        }),
{
}

/// Law: a limit order that comes to rest without trading, cancelled right
/// after it was placed, leaves its book as it was and gives back the funds
/// it locked — the user's balances are as before — whenever the decimal
/// arithmetic of locking and releasing is exact. (Its id is new to the book.)
pub proof fn law_cancel_restores_funds_of_resting_order(
    e0: Exchange,
    e1: Exchange,
    e2: Exchange,
    req: PlaceOrderRequest,
    id: OrderId,
    r1: Result<OrderId, AppError>,
    r2: Result<(), AppError>,
)
    requires
        books_wf(e0.books@),
        placement(&e0, &e1, req, id, r1),
        r1 is Ok,
        cancellation(&e1, &e2, id, r2),
        parse_order_type(req.order_type@) == Some(OrderType::Limit),
        req.quantity.value() > 0,
        forall|i: int|
            0 <= i < book_state(e0.books@, req.symbol@).0.len() ==> (#[trigger] book_state(
                e0.books@,
                req.symbol@,
            ).0[i]).id != id,
        forall|i: int|
            0 <= i < book_state(e0.books@, req.symbol@).1.len() ==> (#[trigger] book_state(
                e0.books@,
                req.symbol@,
            ).1[i]).id != id,
        parse_side(req.side@) is Some ==> ({
            let opp = opposite_queue(book_state(e0.books@, req.symbol@), parse_side(req.side@).unwrap().0);
            opp.len() == 0 || !crosses(parse_side(req.side@).unwrap().0, req.price, opp[0])
        }),
        e0.risk@.contains_key(req.user_id) && parse_side(req.side@) is Some && req.price is Some
            ==> lock_release_exact(
            e0.risk@[req.user_id]@,
            req.symbol@,
            parse_side(req.side@).unwrap().1,
            req.price.unwrap(),
            req.quantity,
        ),
    ensures
        r2 is Ok,
        book_state(e2.books@, req.symbol@) == book_state(e0.books@, req.symbol@),
        e2.registry@ == e0.registry@.remove(id),
        e2.risk@.contains_key(req.user_id),
        e2.risk@.remove(req.user_id) == e0.risk@.remove(req.user_id),
        same_balances(e2.risk@[req.user_id]@, e0.risk@[req.user_id]@),
{
    let (book_side, funds_side) = parse_side(req.side@).unwrap();
    let p = req.price.unwrap();
    let q = req.quantity;
    let user = req.user_id;
    let sym = req.symbol@;
    let next = e0.sequencer.next_id();
    let order = Order { sequence_id: next, ..request_order(req, id, book_side, OrderType::Limit) };
    let before = book_state(e0.books@, sym);
    assert(book_wf(before)) by {
        if has_book(e0.books@, sym) {
            let i = choose|i: int| is_book_for(e0.books@, sym, i);
            assert(e0.books@[i].wf());
        }
    }
    law_cancel_undoes_resting_order(before, book_meta(e0.books@, sym), order);
    let rested = Order { remaining: q, ..order };
    // The placement locked the funds and left the order resting.
    assert(funds_result(r1) is Ok);
    let w0 = e0.risk@[user]@;
    let w1 = e1.risk@[user]@;
    assert(e1.registry@ == e0.registry@.insert(
        id,
        OpenOrder { user_id: user, symbol: req.symbol, side: funds_side, price: p, quantity: q },
    ));
    assert(e1.registry@.contains_key(id));
    let open = e1.registry@[id];
    assert(open.symbol@ == sym);
    assert(book_state(e1.books@, sym) == crate::order_book::limit_spec(before, order).2);
    assert(e2.registry@ =~= e0.registry@.remove(id));
    assert(w1 == lock_outcome(w0, sym, funds_side, p, q)->Ok_0);
    law_release_succeeds_after_lock(w0, sym, funds_side, p, q);
    assert(e2.risk@.remove(user) =~= e0.risk@.remove(user)) by {
        assert(e1.risk@.remove(user) == e0.risk@.remove(user));
        assert(e2.risk@.remove(user) == e1.risk@.remove(user));
    }
}

/// Law: a limit order that comes to rest in its book — whether or not it
/// traded first — is registered for cancellation, under its id, with its
/// owner, symbol, side, limit price and quantity.
pub proof fn law_resting_order_is_registered(
    old: Exchange,
    new: Exchange,
    req: PlaceOrderRequest,
    id: OrderId,
    r: Result<OrderId, AppError>,
)
    requires
        placement(&old, &new, req, id, r),
        r is Ok,
        parse_order_type(req.order_type@) == Some(OrderType::Limit),
        !is_resting(book_state(old.books@, req.symbol@), id),
        is_resting(book_state(new.books@, req.symbol@), id),
    ensures
        req.price is Some,
        parse_side(req.side@) is Some,
        new.registry@.contains_key(id),
        new.registry@[id] == (OpenOrder {
            user_id: req.user_id,
            symbol: req.symbol,
            side: parse_side(req.side@).unwrap().1,
            price: req.price.unwrap(),
            quantity: req.quantity,
        }),
{
    let (book_side, funds_side) = parse_side(req.side@).unwrap();
    let sym = req.symbol@;
    let before = book_state(old.books@, sym);
    let order = Order { sequence_id: old.sequencer.next_id(), ..request_order(req, id, book_side, OrderType::Limit) };
    assert(funds_result(r) is Ok);
    let s = limit_spec(before, order);
    if s.1 is None {
        let after = book_state(new.books@, sym);
        assert(after == s.2);
        if book_side == Side::Bid {
            let m = match_spec(before.1, order, order.price, order.quantity);
            let d = match_dropped(before.1, order, order.price, order.quantity) as int;
            crate::book_laws::lemma_match_shape(before.1, order, order.price, order.quantity);
            assert(after == (before.0, m.2));
            if ids_of(m.2).contains(id) {
                let j = choose|j: int| 0 <= j < m.2.len() && m.2[j].id == id;
                assert(before.1[d + j].id == id);
                assert(ids_of(before.1).contains(id));
            }
        } else {
            let m = match_spec(before.0, order, order.price, order.quantity);
            let d = match_dropped(before.0, order, order.price, order.quantity) as int;
            crate::book_laws::lemma_match_shape(before.0, order, order.price, order.quantity);
            assert(after == (m.2, before.1));
            if ids_of(m.2).contains(id) {
                let j = choose|j: int| 0 <= j < m.2.len() && m.2[j].id == id;
                assert(before.0[d + j].id == id);
                assert(ids_of(before.0).contains(id));
            }
        }
    }
}

/// Law: cancelling an order releases the funds of the part of it still
/// resting — its remaining quantity, not the quantity it was placed with —
/// and touches no other user: for a buy, the locked cash goes down and the
/// available cash up by price × remaining; for a sell, the position's locked
/// quantity goes down and its available quantity up by the remaining
/// quantity (where that arithmetic is exact).
pub proof fn law_cancel_releases_unfilled_funds(old: Exchange, new: Exchange, id: OrderId, r: Result<(), AppError>)
    requires
        cancellation(&old, &new, id, r),
        r is Ok,
    ensures
        old.registry@.contains_key(id),
        ({
            let open = old.registry@[id];
            let before = book_state(old.books@, open.symbol@);
            let c = cancel_spec(before, book_meta(old.books@, open.symbol@).2.get(id), id);
            let o = c.0.unwrap();
            let w = old.risk@[open.user_id]@;
            let v = new.risk@[open.user_id]@;
            let n = Amount::spec_mul(open.price, o.remaining);
            let i = symbol_index(w.2, open.symbol@);
            &&& c.0 is Some
            &&& old.risk@.contains_key(open.user_id) && new.risk@.contains_key(open.user_id)
            &&& new.risk@.remove(open.user_id) == old.risk@.remove(open.user_id)
            &&& open.side == FundsSide::Buy && w.0.is_valid() && w.1.is_valid() && n.is_valid() && exact_add_sub(
                w.1@,
                n@,
                -1,
            ) is Some && exact_add_sub(w.0@, n@, 1) is Some ==> {
                &&& v.1.value() == w.1.value() - n.value()
                &&& v.0.value() == w.0.value() + n.value()
            }
            &&& open.side == FundsSide::Sell && w.2[i].1.available.is_valid() && w.2[i].1.locked.is_valid()
                && o.remaining.is_valid() && exact_add_sub(w.2[i].1.locked@, o.remaining@, -1) is Some
                && exact_add_sub(w.2[i].1.available@, o.remaining@, 1) is Some ==> {
                &&& v.2[i].1.locked.value() == w.2[i].1.locked.value() - o.remaining.value()
                &&& v.2[i].1.available.value() == w.2[i].1.available.value() + o.remaining.value()
            }
        }),
{
    let open = old.registry@[id];
    let before = book_state(old.books@, open.symbol@);
    let c = cancel_spec(before, book_meta(old.books@, open.symbol@).2.get(id), id);
    let o = c.0.unwrap();
    let w = old.risk@[open.user_id]@;
    let n = Amount::spec_mul(open.price, o.remaining);
    let i = symbol_index(w.2, open.symbol@);
    assert(funds_result(r) is Ok);
    let out = release_outcome(w, open.symbol@, open.side, open.price, o.remaining);
    assert(out is Ok);
    if open.side == FundsSide::Buy && w.0.is_valid() && w.1.is_valid() && n.is_valid() && exact_add_sub(w.1@, n@, -1)
        is Some && exact_add_sub(w.0@, n@, 1) is Some {
        Amount::lemma_sub_exact(w.1, n);
        Amount::lemma_add_exact(w.0, n);
    }
    if open.side == FundsSide::Sell && w.2[i].1.available.is_valid() && w.2[i].1.locked.is_valid()
        && o.remaining.is_valid() && exact_add_sub(w.2[i].1.locked@, o.remaining@, -1) is Some && exact_add_sub(
        w.2[i].1.available@,
        o.remaining@,
        1,
    ) is Some {
        Amount::lemma_sub_exact(w.2[i].1.locked, o.remaining);
        Amount::lemma_add_exact(w.2[i].1.available, o.remaining);
    }
}

} // verus!
