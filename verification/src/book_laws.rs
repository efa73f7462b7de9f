//! Laws of the order book, stated over the specifications of its operations.
use vstd::prelude::*;
use crate::amount::{exact_add_sub, Amount};
use crate::order::{Order, OrderId, Price, Quantity, Side, Trade};
use crate::order_book::{
    at_least_as_good, book_wf, cancel_spec, crosses, insert_resting, is_first_with_id_at,
    is_rest_index, level_totals, level_view, limit_meta, limit_spec, market_spec, match_spec,
    price_value, resting_ok, side_wf, top_levels, uncrossed, BookMeta, cancel_meta, disjoint_ids,
    distinct_ids, ids_of, index_after_match, indexed, is_resting, market_meta, match_dropped,
    pair_indexed, queue_indexed, lemma_first_with_id_at_unique, carry_levels, carry_price,
    levels_match,
};

verus! {

/// The sum of the quantities of the trades.
pub open spec fn traded_value(ts: Seq<Trade>) -> int
    decreases ts.len(),
{
    if ts.len() == 0 {
        0
    } else {
        ts[0].quantity.value() + traded_value(ts.drop_first())
    }
}

/// The sum of the remaining quantities of a queue.
pub open spec fn resting_value(s: Seq<Order>) -> int
    decreases s.len(),
{
    if s.len() == 0 {
        0
    } else {
        s[0].remaining.value() + resting_value(s.drop_first())
    }
}

/// Every subtraction that matching performs is exact (no decimal rounding).
pub open spec fn match_exact(opp: Seq<Order>, taker: Order, limit: Option<Price>, inc: Quantity) -> bool
    decreases opp.len(),
{
    if inc.value() <= 0 || opp.len() == 0 || !crosses(taker.side, limit, opp[0]) {
        true
    } else {
        let resting = opp[0];
        let fill = Amount::spec_min(resting.remaining, inc);
        let inc2 = Amount::spec_sub(inc, fill);
        let rem2 = Amount::spec_sub(resting.remaining, fill);
        &&& exact_add_sub(inc@, fill@, -1) is Some
        &&& exact_add_sub(resting.remaining@, fill@, -1) is Some
        &&& (rem2.value() > 0 || match_exact(opp.drop_first(), taker, limit, inc2))
    }
}

/// The queue that the incoming order trades against.
pub open spec fn opposite_queue(book: (Seq<Order>, Seq<Order>), side: Side) -> Seq<Order> {
    if side == Side::Bid {
        book.1
    } else {
        book.0
    }
}

/// A trade is priced within the taker's limit.
pub open spec fn within_limit(taker_side: Side, limit: Option<Price>, t: Trade) -> bool {
    match limit {
        None => true,
        Some(l) => match taker_side {
            Side::Bid => t.price.value() <= l.value(),
            Side::Ask => t.price.value() >= l.value(),
        },
    }
}

proof fn lemma_drop_first_keeps_wf(s: Seq<Order>, side: Side)
    requires
        side_wf(s, side),
        s.len() > 0,
    ensures
        side_wf(s.drop_first(), side),
{
    let r = s.drop_first();
    assert forall|a: int, b: int| 0 <= a < b < r.len() implies at_least_as_good(
        side,
        #[trigger] r[a],
        #[trigger] r[b],
    ) by {
        assert(at_least_as_good(side, s[a + 1], s[b + 1]));
    }
}

/// When an incoming order has quantity left after matching, it no longer
/// crosses the head of the queue (or the queue is empty).
pub proof fn lemma_match_stops(opp: Seq<Order>, taker: Order, limit: Option<Price>, inc: Quantity)
    ensures
        ({
            let m = match_spec(opp, taker, limit, inc);
            m.1.value() > 0 ==> (m.2.len() == 0 || !crosses(taker.side, limit, m.2[0]))
        }),
    decreases opp.len(),
{
    if inc.value() <= 0 || opp.len() == 0 || !crosses(taker.side, limit, opp[0]) {
    } else {
        let resting = opp[0];
        let fill = Amount::spec_min(resting.remaining, inc);
        let inc2 = Amount::spec_sub(inc, fill);
        let rem2 = Amount::spec_sub(resting.remaining, fill);
        Amount::lemma_sub_self(resting.remaining);
        Amount::lemma_sub_self(inc);
        if rem2.value() <= 0 {
            lemma_match_stops(opp.drop_first(), taker, limit, inc2);
        }
    }
}

/// The queue left by matching is no longer than before, and its head is
/// priced no better than the old head.
pub proof fn lemma_match_head(opp: Seq<Order>, taker: Order, limit: Option<Price>, inc: Quantity)
    requires
        side_wf(opp, taker.side.spec_opposite()),
    ensures
        ({
            let m = match_spec(opp, taker, limit, inc);
            &&& m.2.len() <= opp.len()
            &&& m.2.len() > 0 ==> at_least_as_good(taker.side.spec_opposite(), opp[0], m.2[0])
            &&& m.2.len() > 0 ==> m.2[0].price == opp[(opp.len() - m.2.len()) as int].price
        }),
    decreases opp.len(),
{
    let side = taker.side.spec_opposite();
    if inc.value() <= 0 || opp.len() == 0 || !crosses(taker.side, limit, opp[0]) {
    } else {
        let resting = opp[0];
        let fill = Amount::spec_min(resting.remaining, inc);
        let inc2 = Amount::spec_sub(inc, fill);
        let rem2 = Amount::spec_sub(resting.remaining, fill);
        if rem2.value() <= 0 {
            let rest = opp.drop_first();
            lemma_drop_first_keeps_wf(opp, side);
            lemma_match_head(rest, taker, limit, inc2);
            let m = match_spec(rest, taker, limit, inc2);
            if m.2.len() > 0 {
                let j = (rest.len() - m.2.len()) as int;
                assert(rest[j] == opp[j + 1]);
                assert(at_least_as_good(side, opp[0], opp[j + 1]));
            }
        }
    }
}

/// Every trade of a match is priced within the taker's limit, at the price
/// of the resting (maker) order, and names the taker.
pub proof fn lemma_match_trades_within_limit(
    opp: Seq<Order>,
    taker: Order,
    limit: Option<Price>,
    inc: Quantity,
)
    ensures
        ({
            let m = match_spec(opp, taker, limit, inc);
            forall|i: int|
                0 <= i < m.0.len() ==> {
                    &&& within_limit(taker.side, limit, #[trigger] m.0[i])
                    &&& m.0[i].taker_order_id == taker.id
                    &&& exists|j: int|
                        0 <= j < opp.len() && m.0[i].maker_order_id == opp[j].id && m.0[i].price
                            == opp[j].price.unwrap()
                }
        }),
    decreases opp.len(),
{
    if inc.value() <= 0 || opp.len() == 0 || !crosses(taker.side, limit, opp[0]) {
    } else {
        let resting = opp[0];
        let fill = Amount::spec_min(resting.remaining, inc);
        let inc2 = Amount::spec_sub(inc, fill);
        let rem2 = Amount::spec_sub(resting.remaining, fill);
        let m = match_spec(opp, taker, limit, inc);
        if rem2.value() <= 0 {
            let rest = opp.drop_first();
            lemma_match_trades_within_limit(rest, taker, limit, inc2);
            let mr = match_spec(rest, taker, limit, inc2);
            assert forall|i: int| 0 <= i < m.0.len() implies {
                &&& within_limit(taker.side, limit, #[trigger] m.0[i])
                &&& m.0[i].taker_order_id == taker.id
                &&& exists|j: int|
                    0 <= j < opp.len() && m.0[i].maker_order_id == opp[j].id && m.0[i].price
                        == opp[j].price.unwrap()
            } by {
                if i == 0 {
                    assert(m.0[0].maker_order_id == opp[0].id);
                } else {
                    assert(m.0[i] == mr.0[i - 1]);
                    let j = choose|j: int|
                        0 <= j < rest.len() && mr.0[i - 1].maker_order_id == rest[j].id
                            && mr.0[i - 1].price == rest[j].price.unwrap();
                    assert(rest[j] == opp[j + 1]);
                }
            }
        } else {
            assert forall|i: int| 0 <= i < m.0.len() implies {
                &&& within_limit(taker.side, limit, #[trigger] m.0[i])
                &&& m.0[i].taker_order_id == taker.id
                &&& exists|j: int|
                    0 <= j < opp.len() && m.0[i].maker_order_id == opp[j].id && m.0[i].price
                        == opp[j].price.unwrap()
            } by {
                assert(m.0[i].maker_order_id == opp[0].id);
            }
        }
    }
}

/// In a queue in price priority there is always a place to join.
pub proof fn lemma_rest_index_exists(s: Seq<Order>, side: Side, o: Order)
    requires
        side_wf(s, side),
    ensures
        exists|k: int| is_rest_index(s, side, o, k),
    decreases s.len(),
{
    if s.len() == 0 {
        assert(is_rest_index(s, side, o, 0));
    } else {
        let init = s.drop_last();
        assert forall|a: int, b: int| 0 <= a < b < init.len() implies at_least_as_good(
            side,
            #[trigger] init[a],
            #[trigger] init[b],
        ) by {
            assert(at_least_as_good(side, s[a], s[b]));
        }
        lemma_rest_index_exists(init, side, o);
        let k = choose|k: int| is_rest_index(init, side, o, k);
        let n = s.len() - 1;
        assert forall|i: int| 0 <= i < k implies at_least_as_good(side, #[trigger] s[i], o) by {
            assert(s[i] == init[i]);
        }
        if k == n {
            if at_least_as_good(side, s[n], o) {
                assert(is_rest_index(s, side, o, n + 1));
            } else {
                assert(is_rest_index(s, side, o, n));
            }
        } else {
            assert(s[k] == init[k]);
            assert(!at_least_as_good(side, s[k], o));
            assert(at_least_as_good(side, s[k], s[n]));
            assert forall|i: int| k <= i < s.len() implies !at_least_as_good(side, #[trigger] s[i], o) by {
                if i < n {
                    assert(s[i] == init[i]);
                }
            }
            assert(is_rest_index(s, side, o, k));
        }
    }
}

/// The head of a queue after an order joins it is the order or the old head.
proof fn lemma_insert_head(s: Seq<Order>, side: Side, o: Order)
    requires
        side_wf(s, side),
    ensures
        insert_resting(s, side, o).len() == s.len() + 1,
        insert_resting(s, side, o)[0] == o || (s.len() > 0 && insert_resting(s, side, o)[0] == s[0]),
{
    lemma_rest_index_exists(s, side, o);
    let k = choose|k: int| is_rest_index(s, side, o, k);
    if k > 0 {
        assert(insert_resting(s, side, o)[0] == s[0]);
    }
}

/// Law: a limit order leaves an uncrossed book uncrossed — after matching,
/// what is left of it rests only at a price that no longer crosses.
pub proof fn law_limit_order_keeps_book_uncrossed(book: (Seq<Order>, Seq<Order>), order: Order)
    requires
        book_wf(book),
        uncrossed(book),
        order.price is Some,
    ensures
        uncrossed(limit_spec(book, order).2),
{
    let opp = opposite_queue(book, order.side);
    let m = match_spec(opp, order, order.price, order.quantity);
    let rested = Order { remaining: m.1, ..order };
    let after = limit_spec(book, order).2;
    lemma_match_stops(opp, order, order.price, order.quantity);
    lemma_match_head(opp, order, order.price, order.quantity);
    if order.side == Side::Bid {
        if m.1.value() > 0 {
            lemma_insert_head(book.0, Side::Bid, rested);
        }
    } else {
        if m.1.value() > 0 {
            lemma_insert_head(book.1, Side::Ask, rested);
        }
    }
    if after.0.len() > 0 && after.1.len() > 0 {
        if order.side == Side::Bid {
            assert(price_value(book.1[0]) <= price_value(after.1[0]));
        } else {
            assert(price_value(book.0[0]) >= price_value(after.0[0]));
        }
    }
}

/// Law: a market order leaves an uncrossed book uncrossed (it only takes
/// orders away from the opposite side).
pub proof fn law_market_order_keeps_book_uncrossed(book: (Seq<Order>, Seq<Order>), order: Order)
    requires
        book_wf(book),
        uncrossed(book),
    ensures
        uncrossed(market_spec(book, order).2),
{
    let opp = opposite_queue(book, order.side);
    lemma_match_head(opp, order, None, order.quantity);
}

/// Law: cancelling leaves an uncrossed book uncrossed, whatever the index
/// holds for the id.
pub proof fn law_cancel_keeps_book_uncrossed(
    book: (Seq<Order>, Seq<Order>),
    entry: Option<(Side, Price)>,
    id: OrderId,
)
    requires
        book_wf(book),
        uncrossed(book),
    ensures
        uncrossed(cancel_spec(book, entry, id).1),
{
    let after = cancel_spec(book, entry, id).1;
    if entry is Some {
        let v = entry.unwrap().1.value();
        if entry.unwrap().0 == Side::Bid {
            if exists|i: int| is_first_with_id_at(book.0, id, v, i) {
                let i = choose|i: int| is_first_with_id_at(book.0, id, v, i);
                if after.0.len() > 0 && after.1.len() > 0 {
                    if i == 0 {
                        assert(after.0[0] == book.0[1]);
                        assert(at_least_as_good(Side::Bid, book.0[0], book.0[1]));
                    } else {
                        assert(after.0[0] == book.0[0]);
                    }
                }
            }
        } else {
            if exists|i: int| is_first_with_id_at(book.1, id, v, i) {
                let i = choose|i: int| is_first_with_id_at(book.1, id, v, i);
                if after.0.len() > 0 && after.1.len() > 0 {
                    if i == 0 {
                        assert(after.1[0] == book.1[1]);
                        assert(at_least_as_good(Side::Ask, book.1[0], book.1[1]));
                    } else {
                        assert(after.1[0] == book.1[0]);
                    }
                }
            }
        }
    }
}

/// Law: every trade of a limit order is priced at a resting order's price
/// and no worse than the order's limit; every trade of a market order is
/// priced at a resting order's price.
pub proof fn law_trades_at_maker_price_within_limit(book: (Seq<Order>, Seq<Order>), order: Order)
    ensures
        ({
            let opp = opposite_queue(book, order.side);
            let ts = limit_spec(book, order).0;
            forall|i: int|
                0 <= i < ts.len() ==> {
                    &&& within_limit(order.side, order.price, #[trigger] ts[i])
                    &&& ts[i].taker_order_id == order.id
                    &&& exists|j: int|
                        0 <= j < opp.len() && ts[i].maker_order_id == opp[j].id && ts[i].price
                            == opp[j].price.unwrap()
                }
        }),
        ({
            let opp = opposite_queue(book, order.side);
            let ts = market_spec(book, order).0;
            forall|i: int|
                0 <= i < ts.len() ==> {
                    &&& ts[i].taker_order_id == order.id
                    &&& exists|j: int|
                        0 <= j < opp.len() && ts[i].maker_order_id == opp[j].id && ts[i].price
                            == opp[j].price.unwrap()
                }
        }),
{
    let opp = opposite_queue(book, order.side);
    lemma_match_trades_within_limit(opp, order, order.price, order.quantity);
    lemma_match_trades_within_limit(opp, order, None, order.quantity);
}

/// Matching moves quantity without creating or losing any, when every
/// subtraction is exact: what the trades carry is what the taker loses and
/// what the queue loses.
pub proof fn lemma_match_conserves(opp: Seq<Order>, taker: Order, limit: Option<Price>, inc: Quantity)
    requires
        side_wf(opp, taker.side.spec_opposite()),
        inc.is_valid(),
        inc.value() >= 0,
        match_exact(opp, taker, limit, inc),
    ensures
        ({
            let m = match_spec(opp, taker, limit, inc);
            &&& traded_value(m.0) + m.1.value() == inc.value()
            &&& traded_value(m.0) + resting_value(m.2) == resting_value(opp)
            &&& m.1.value() >= 0
        }),
    decreases opp.len(),
{
    let side = taker.side.spec_opposite();
    let m = match_spec(opp, taker, limit, inc);
    if inc.value() <= 0 || opp.len() == 0 || !crosses(taker.side, limit, opp[0]) {
    } else {
        let resting = opp[0];
        assert(resting_ok(resting, side));
        let fill = Amount::spec_min(resting.remaining, inc);
        let inc2 = Amount::spec_sub(inc, fill);
        let rem2 = Amount::spec_sub(resting.remaining, fill);
        Amount::lemma_sub_exact(inc, fill);
        Amount::lemma_sub_exact(resting.remaining, fill);
        let t = crate::order_book::trade_of(resting, taker, fill);
        if rem2.value() > 0 {
            assert(m.0 =~= seq![t]);
            assert(seq![t].drop_first() =~= Seq::<Trade>::empty());
            assert(traded_value(seq![t].drop_first()) == 0);
            assert(seq![t][0] == t);
            assert(traded_value(m.0) == fill.value());
            let q = opp.update(0, Order { remaining: rem2, ..resting });
            assert(q.drop_first() =~= opp.drop_first());
            assert(q[0].remaining == rem2);
            assert(resting_value(q) == rem2.value() + resting_value(opp.drop_first()));
            assert(m.1 == inc2);
            assert(m.2 == q);
        } else {
            let rest = opp.drop_first();
            lemma_drop_first_keeps_wf(opp, side);
            lemma_match_conserves(rest, taker, limit, inc2);
            let mr = match_spec(rest, taker, limit, inc2);
            assert((seq![t] + mr.0).drop_first() =~= mr.0);
            assert((seq![t] + mr.0)[0] == t);
            assert(m.0 == seq![t] + mr.0);
            assert(traded_value(m.0) == fill.value() + traded_value(mr.0));
            assert(rem2.value() == 0);
        }
    }
}

/// Law: when no subtraction in the matching rounds, a limit order's trades
/// and its unfilled rest add up to its quantity, and the trades take from
/// the opposite side exactly what they carry. (A negative quantity is left
/// out: such an order neither trades nor rests.)
pub proof fn law_limit_order_conserves_quantity(book: (Seq<Order>, Seq<Order>), order: Order)
    requires
        book_wf(book),
        order.price is Some,
        order.quantity.is_valid(),
        order.quantity.value() >= 0,
        match_exact(opposite_queue(book, order.side), order, order.price, order.quantity),
    ensures
        ({
            let s = limit_spec(book, order);
            let left = match s.1 {
                Some(o) => o.remaining.value(),
                None => 0int,
            };
            &&& traded_value(s.0) + left == order.quantity.value()
            &&& traded_value(s.0) + resting_value(opposite_queue(s.2, order.side)) == resting_value(
                opposite_queue(book, order.side),
            )
        }),
{
    lemma_match_conserves(opposite_queue(book, order.side), order, order.price, order.quantity);
}

/// Law: the same for a market order.
pub proof fn law_market_order_conserves_quantity(book: (Seq<Order>, Seq<Order>), order: Order)
    requires
        book_wf(book),
        order.quantity.is_valid(),
        order.quantity.value() >= 0,
        match_exact(opposite_queue(book, order.side), order, None, order.quantity),
    ensures
        ({
            let s = market_spec(book, order);
            let left = match s.1 {
                Some(o) => o.remaining.value(),
                None => 0int,
            };
            &&& traded_value(s.0) + left == order.quantity.value()
            &&& traded_value(s.0) + resting_value(opposite_queue(s.2, order.side)) == resting_value(
                opposite_queue(book, order.side),
            )
        }),
{
    lemma_match_conserves(opposite_queue(book, order.side), order, None, order.quantity);
}

/// Law: a limit order that does not cross, cancelled right after it came to
/// rest, is handed back whole and leaves the queues as they were (its id
/// being new to the book): the index then holds the side and price it
/// rested at.
pub proof fn law_cancel_undoes_resting_order(book: (Seq<Order>, Seq<Order>), meta: BookMeta, order: Order)
    requires
        book_wf(book),
        order.price is Some,
        order.quantity.value() > 0,
        forall|i: int| 0 <= i < book.0.len() ==> (#[trigger] book.0[i]).id != order.id,
        forall|i: int| 0 <= i < book.1.len() ==> (#[trigger] book.1[i]).id != order.id,
        opposite_queue(book, order.side).len() == 0 || !crosses(
            order.side,
            order.price,
            opposite_queue(book, order.side)[0],
        ),
    ensures
        ({
            let s = limit_spec(book, order);
            let m = limit_meta(book, meta, order);
            &&& s.0.len() == 0
            &&& s.1 == Some(Order { remaining: order.quantity, ..order })
            &&& m.2.get(order.id) == Some((order.side, order.price.unwrap()))
            &&& cancel_spec(s.2, m.2.get(order.id), order.id) == (s.1, book)
        }),
{
    let rested = Order { remaining: order.quantity, ..order };
    let s = limit_spec(book, order);
    let opp = opposite_queue(book, order.side);
    let m = match_spec(opp, order, order.price, order.quantity);
    assert(m == (Seq::<Trade>::empty(), order.quantity, opp));
    assert(s.1 == Some(rested));
    let own = if order.side == Side::Bid {
        book.0
    } else {
        book.1
    };
    lemma_rest_index_exists(own, order.side, rested);
    let k = choose|k: int| is_rest_index(own, order.side, rested, k);
    let joined = own.insert(k, rested);
    let v = order.price.unwrap().value();
    assert(joined == insert_resting(own, order.side, rested));
    assert(is_first_with_id_at(joined, order.id, v, k)) by {
        assert forall|j: int| 0 <= j < k implies !((#[trigger] joined[j]).id == order.id && price_value(joined[j]) == v) by {
            assert(joined[j] == own[j]);
        }
    }
    assert(joined.remove(k) =~= own);
    assert(joined[k] == rested);
    let c = choose|c: int| is_first_with_id_at(joined, order.id, v, c);
    crate::order_book::lemma_first_with_id_at_unique(joined, order.id, v, c, k);
    if order.side == Side::Bid {
        assert(s.2 == (joined, book.1));
    } else {
        assert(s.2 == (book.0, joined));
    }
}

/// Price `a` is strictly better than price `b` for the queue of `side`.
pub open spec fn strictly_better(side: Side, a: int, b: int) -> bool {
    match side {
        Side::Bid => a > b,
        Side::Ask => a < b,
    }
}

/// Law: the price levels of a queue in price priority (what `depth`
/// reports, best first) are strictly in priority order — no two levels
/// share a price — there are no more levels than orders, and the last level
/// is at the price of the last order.
pub proof fn law_levels_strictly_ordered(s: Seq<Order>, side: Side)
    requires
        side_wf(s, side),
    ensures
        ({
            let t = level_totals(s);
            &&& forall|i: int, j: int|
                0 <= i < j < t.len() ==> strictly_better(side, (#[trigger] t[i]).0.value(), (#[trigger] t[j]).0.value())
            &&& t.len() <= s.len()
            &&& s.len() > 0 ==> t.len() > 0 && t.last().0.value() == price_value(s.last())
            &&& s.len() > 0 ==> t[0].0 == s[0].price.unwrap()
        }),
    decreases s.len(),
{
    if s.len() > 0 {
        let init = s.drop_last();
        assert(init =~= s.remove(s.len() - 1));
        crate::order_book::lemma_remove_keeps_wf(s, side, s.len() - 1);
        law_levels_strictly_ordered(init, side);
        let prev = level_totals(init);
        let o = s.last();
        let t = level_totals(s);
        if init.len() > 0 {
            assert(init[0] == s[0]);
        }
        if prev.len() > 0 && prev.last().0.value() == price_value(o) {
            assert forall|i: int, j: int| 0 <= i < j < t.len() implies strictly_better(
                side,
                (#[trigger] t[i]).0.value(),
                (#[trigger] t[j]).0.value(),
            ) by {
                assert(t[i].0 == prev[i].0 && t[j].0 == prev[j].0);
            }
        } else {
            if prev.len() > 0 {
                assert(at_least_as_good(side, s[s.len() - 2], o));
                assert(init.last() == s[s.len() - 2]);
            }
            assert forall|i: int, j: int| 0 <= i < j < t.len() implies strictly_better(
                side,
                (#[trigger] t[i]).0.value(),
                (#[trigger] t[j]).0.value(),
            ) by {
                if j < prev.len() {
                    assert(t[i] == prev[i] && t[j] == prev[j]);
                } else {
                    assert(t[i] == prev[i]);
                    if i < prev.len() - 1 {
                        assert(strictly_better(side, prev[i].0.value(), prev[prev.len() - 1].0.value()));
                    }
                }
            }
        }
    }
}

/// Law (price-time priority): an order that comes to rest joins its queue
/// behind every order priced as well or better — in particular behind every
/// earlier order at its price — and ahead of every order priced worse; the
/// orders already there keep their relative order.
pub proof fn law_resting_order_queues_behind_equal_prices(s: Seq<Order>, side: Side, o: Order)
    requires
        side_wf(s, side),
    ensures
        ({
            let t = insert_resting(s, side, o);
            exists|k: int|
                {
                    &&& 0 <= k <= s.len()
                    &&& t == s.insert(k, o)
                    &&& forall|i: int| 0 <= i < k ==> at_least_as_good(side, #[trigger] t[i], o)
                    &&& forall|i: int| k < i < t.len() ==> !at_least_as_good(side, #[trigger] t[i], o)
                }
        }),
{
    lemma_rest_index_exists(s, side, o);
    let k = choose|k: int| is_rest_index(s, side, o, k);
    let t = s.insert(k, o);
    assert forall|i: int| 0 <= i < k implies at_least_as_good(side, #[trigger] t[i], o) by {
        assert(t[i] == s[i]);
    }
    assert forall|i: int| k < i < t.len() implies !at_least_as_good(side, #[trigger] t[i], o) by {
        assert(t[i] == s[i - 1]);
    }
}

/// Law: a shallower depth snapshot is the start of a deeper one.
pub proof fn law_depth_prefix(levels: Seq<Price>, s: Seq<Order>, k: int, m: int)
    requires
        0 <= k <= m,
    ensures
        top_levels(levels, s, k) == top_levels(levels, s, m).take(
            if k < top_levels(levels, s, m).len() {
                k
            } else {
                top_levels(levels, s, m).len() as int
            },
        ),
{
    let t = level_view(levels, s);
    assert(t.take(t.len() as int) =~= t);
    if k < t.len() {
        assert(top_levels(levels, s, m).take(k) =~= t.take(k));
    }
}

/// Matching leaves the queue without its first `d` orders (those it
/// filled), the new head possibly with less remaining: the orders left keep
/// their ids, sides and prices.
pub proof fn lemma_match_shape(opp: Seq<Order>, taker: Order, limit: Option<Price>, inc: Quantity)
    ensures
        ({
            let m = match_spec(opp, taker, limit, inc);
            let d = match_dropped(opp, taker, limit, inc) as int;
            &&& 0 <= d <= opp.len()
            &&& m.2.len() + d == opp.len()
            &&& forall|i: int|
                0 <= i < m.2.len() ==> {
                    &&& (#[trigger] m.2[i]).id == opp[d + i].id
                    &&& m.2[i].price == opp[d + i].price
                    &&& m.2[i].side == opp[d + i].side
                }
        }),
    decreases opp.len(),
{
    if inc.value() <= 0 || opp.len() == 0 || !crosses(taker.side, limit, opp[0]) {
    } else {
        let resting = opp[0];
        let fill = Amount::spec_min(resting.remaining, inc);
        let inc2 = Amount::spec_sub(inc, fill);
        let rem2 = Amount::spec_sub(resting.remaining, fill);
        if rem2.value() <= 0 {
            let rest = opp.drop_first();
            lemma_match_shape(rest, taker, limit, inc2);
            let mr = match_spec(rest, taker, limit, inc2);
            let dr = match_dropped(rest, taker, limit, inc2) as int;
            assert forall|i: int| 0 <= i < mr.2.len() implies (#[trigger] mr.2[i]).id == opp[dr + 1 + i].id
                && mr.2[i].price == opp[dr + 1 + i].price && mr.2[i].side == opp[dr + 1 + i].side by {
                assert(rest[dr + i] == opp[dr + 1 + i]);
            }
        }
    }
}

/// An id among the first `d` orders of a queue is the id of one of them.
proof fn lemma_ids_of_take(s: Seq<Order>, d: int, x: OrderId)
    requires
        0 <= d <= s.len(),
        ids_of(s.take(d)).contains(x),
    ensures
        exists|j: int| 0 <= j < d && s[j].id == x,
{
    let j = choose|j: int| 0 <= j < s.take(d).len() && (#[trigger] s.take(d)[j]).id == x;
    assert(s[j] == s.take(d)[j]);
}

/// Matching keeps queues and index fitting: the filled orders leave both.
pub proof fn lemma_match_keeps_pair_indexed(
    own: Seq<Order>,
    opp: Seq<Order>,
    index: Map<OrderId, (Side, Price)>,
    taker: Order,
    limit: Option<Price>,
    own_side: Side,
    opp_side: Side,
)
    requires
        pair_indexed(own, opp, index, own_side, opp_side),
    ensures
        pair_indexed(
            own,
            match_spec(opp, taker, limit, taker.quantity).2,
            index_after_match(index, opp, taker, limit),
            own_side,
            opp_side,
        ),
{
    let m = match_spec(opp, taker, limit, taker.quantity);
    let d = match_dropped(opp, taker, limit, taker.quantity) as int;
    let q = m.2;
    let dd = ids_of(opp.take(d));
    let idx = index_after_match(index, opp, taker, limit);
    lemma_match_shape(opp, taker, limit, taker.quantity);
    assert(idx == index.remove_keys(dd));
    assert forall|i: int, j: int| 0 <= i < j < q.len() implies (#[trigger] q[i]).id != (#[trigger] q[j]).id by {
        assert(opp[d + i].id != opp[d + j].id);
    }
    assert forall|i: int, j: int| 0 <= i < own.len() && 0 <= j < q.len() implies (#[trigger] own[i]).id != (
    #[trigger] q[j]).id by {
        assert(own[i].id != opp[d + j].id);
    }
    assert forall|i: int| 0 <= i < own.len() implies idx.contains_key((#[trigger] own[i]).id) && idx[own[i].id] == (
        own_side,
        own[i].price.unwrap(),
    ) by {
        if dd.contains(own[i].id) {
            lemma_ids_of_take(opp, d, own[i].id);
            let j = choose|j: int| 0 <= j < d && opp[j].id == own[i].id;
            assert(own[i].id != opp[j].id);
        }
    }
    assert forall|i: int| 0 <= i < q.len() implies idx.contains_key((#[trigger] q[i]).id) && idx[q[i].id] == (
        opp_side,
        q[i].price.unwrap(),
    ) by {
        assert(q[i].id == opp[d + i].id);
        assert(index.contains_key(opp[d + i].id));
        if dd.contains(q[i].id) {
            lemma_ids_of_take(opp, d, q[i].id);
            let j = choose|j: int| 0 <= j < d && opp[j].id == q[i].id;
            assert(opp[j].id != opp[d + i].id);
        }
    }
    assert forall|x: OrderId| #[trigger] idx.contains_key(x) implies ids_of(own).contains(x) || ids_of(q).contains(x) by {
        assert(index.contains_key(x) && !dd.contains(x));
        if !ids_of(own).contains(x) {
            assert(ids_of(opp).contains(x));
            let j = choose|j: int| 0 <= j < opp.len() && opp[j].id == x;
            if j < d {
                assert(opp.take(d)[j].id == x);
                assert(dd.contains(x));
            } else {
                assert(q[j - d].id == x);
            }
        }
    }
}

/// An order with a new id joining a queue, and the index, keeps them fitting.
pub proof fn lemma_rest_keeps_pair_indexed(
    own: Seq<Order>,
    opp: Seq<Order>,
    index: Map<OrderId, (Side, Price)>,
    o: Order,
    own_side: Side,
    opp_side: Side,
    k: int,
)
    requires
        pair_indexed(own, opp, index, own_side, opp_side),
        !ids_of(own).contains(o.id),
        !ids_of(opp).contains(o.id),
        0 <= k <= own.len(),
    ensures
        pair_indexed(own.insert(k, o), opp, index.insert(o.id, (own_side, o.price.unwrap())), own_side, opp_side),
{
    let n = own.insert(k, o);
    let idx = index.insert(o.id, (own_side, o.price.unwrap()));
    assert forall|i: int| 0 <= i < n.len() implies (#[trigger] n[i]).id == o.id || (n[i] == own[if i < k {
        i
    } else {
        i - 1
    }] && i != k) by {
        if i < k {
            assert(n[i] == own[i]);
        } else if i > k {
            assert(n[i] == own[i - 1]);
        }
    }
    assert forall|i: int| 0 <= i < own.len() implies (#[trigger] own[i]).id != o.id by {
        if own[i].id == o.id {
            assert(ids_of(own).contains(o.id));
        }
    }
    assert forall|j: int| 0 <= j < opp.len() implies (#[trigger] opp[j]).id != o.id by {
        if opp[j].id == o.id {
            assert(ids_of(opp).contains(o.id));
        }
    }
    assert forall|i: int, j: int| 0 <= i < j < n.len() implies (#[trigger] n[i]).id != (#[trigger] n[j]).id by {
        if i < k && j < k {
            assert(own[i].id != own[j].id);
        } else if i < k && j > k {
            assert(own[i].id != own[j - 1].id);
        } else if i > k {
            assert(own[i - 1].id != own[j - 1].id);
        }
    }
    assert forall|i: int, j: int| 0 <= i < n.len() && 0 <= j < opp.len() implies (#[trigger] n[i]).id != (
    #[trigger] opp[j]).id by {
        if i < k {
            assert(own[i].id != opp[j].id);
        } else if i > k {
            assert(own[i - 1].id != opp[j].id);
        }
    }
    assert forall|i: int| 0 <= i < n.len() implies idx.contains_key((#[trigger] n[i]).id) && idx[n[i].id] == (
        own_side,
        n[i].price.unwrap(),
    ) by {
        if i < k {
            assert(index.contains_key(own[i].id));
        } else if i > k {
            assert(index.contains_key(own[i - 1].id));
        }
    }
    assert forall|x: OrderId| #[trigger] idx.contains_key(x) implies ids_of(n).contains(x) || ids_of(opp).contains(x) by {
        if x == o.id {
            assert(n[k].id == x);
        } else if ids_of(own).contains(x) {
            let j = choose|j: int| 0 <= j < own.len() && own[j].id == x;
            if j < k {
                assert(n[j].id == x);
            } else {
                assert(n[j + 1].id == x);
            }
        }
    }
}

/// The index fits a book read either way round.
proof fn lemma_indexed_flip(b: (Seq<Order>, Seq<Order>), index: Map<OrderId, (Side, Price)>)
    ensures
        indexed(b, index) <==> pair_indexed(b.1, b.0, index, Side::Ask, Side::Bid),
{
    if indexed(b, index) {
        assert forall|i: int, j: int| 0 <= i < b.1.len() && 0 <= j < b.0.len() implies (#[trigger] b.1[i]).id != (
        #[trigger] b.0[j]).id by {
            assert(b.0[j].id != b.1[i].id);
        }
    }
    if pair_indexed(b.1, b.0, index, Side::Ask, Side::Bid) {
        assert forall|i: int, j: int| 0 <= i < b.0.len() && 0 <= j < b.1.len() implies (#[trigger] b.0[i]).id != (
        #[trigger] b.1[j]).id by {
            assert(b.1[j].id != b.0[i].id);
        }
    }
}

/// Law: a limit order whose id rests nowhere in the book keeps the index
/// fitting the resting orders.
pub proof fn law_limit_order_keeps_index(book: (Seq<Order>, Seq<Order>), meta: BookMeta, order: Order)
    requires
        book_wf(book),
        order.price is Some,
        indexed(book, meta.2),
        !is_resting(book, order.id),
    ensures
        indexed(limit_spec(book, order).2, limit_meta(book, meta, order).2),
{
    let s = limit_spec(book, order);
    let rested = Order { remaining: match_spec(opposite_queue(book, order.side), order, order.price, order.quantity).1, ..order };
    if order.side == Side::Bid {
        lemma_match_keeps_pair_indexed(book.0, book.1, meta.2, order, order.price, Side::Bid, Side::Ask);
        let m = match_spec(book.1, order, order.price, order.quantity);
        let idx = index_after_match(meta.2, book.1, order, order.price);
        if s.1 is Some {
            lemma_rest_index_exists(book.0, Side::Bid, rested);
            let k = choose|k: int| is_rest_index(book.0, Side::Bid, rested, k);
            lemma_match_shape(book.1, order, order.price, order.quantity);
            if ids_of(m.2).contains(order.id) {
                let j = choose|j: int| 0 <= j < m.2.len() && m.2[j].id == order.id;
                let d = match_dropped(book.1, order, order.price, order.quantity) as int;
                assert(book.1[d + j].id == order.id);
                assert(ids_of(book.1).contains(order.id));
            }
            lemma_rest_keeps_pair_indexed(book.0, m.2, idx, rested, Side::Bid, Side::Ask, k);
        }
    } else {
        lemma_indexed_flip(book, meta.2);
        lemma_match_keeps_pair_indexed(book.1, book.0, meta.2, order, order.price, Side::Ask, Side::Bid);
        let m = match_spec(book.0, order, order.price, order.quantity);
        let idx = index_after_match(meta.2, book.0, order, order.price);
        if s.1 is Some {
            lemma_rest_index_exists(book.1, Side::Ask, rested);
            let k = choose|k: int| is_rest_index(book.1, Side::Ask, rested, k);
            lemma_match_shape(book.0, order, order.price, order.quantity);
            if ids_of(m.2).contains(order.id) {
                let j = choose|j: int| 0 <= j < m.2.len() && m.2[j].id == order.id;
                let d = match_dropped(book.0, order, order.price, order.quantity) as int;
                assert(book.0[d + j].id == order.id);
                assert(ids_of(book.0).contains(order.id));
            }
            lemma_rest_keeps_pair_indexed(book.1, m.2, idx, rested, Side::Ask, Side::Bid, k);
            lemma_indexed_flip(s.2, limit_meta(book, meta, order).2);
        } else {
            lemma_indexed_flip(s.2, limit_meta(book, meta, order).2);
        }
    }
}

/// Law: a market order keeps the index fitting the resting orders.
pub proof fn law_market_order_keeps_index(book: (Seq<Order>, Seq<Order>), meta: BookMeta, order: Order)
    requires
        indexed(book, meta.2),
    ensures
        indexed(market_spec(book, order).2, market_meta(book, meta, order).2),
{
    if order.side == Side::Bid {
        lemma_match_keeps_pair_indexed(book.0, book.1, meta.2, order, None, Side::Bid, Side::Ask);
    } else {
        lemma_indexed_flip(book, meta.2);
        lemma_match_keeps_pair_indexed(book.1, book.0, meta.2, order, None, Side::Ask, Side::Bid);
        lemma_indexed_flip(market_spec(book, order).2, market_meta(book, meta, order).2);
    }
}

/// Taking an order out of a queue, and its id out of the index, keeps them
/// fitting.
proof fn lemma_remove_keeps_pair_indexed(
    own: Seq<Order>,
    opp: Seq<Order>,
    index: Map<OrderId, (Side, Price)>,
    own_side: Side,
    opp_side: Side,
    k: int,
)
    requires
        pair_indexed(own, opp, index, own_side, opp_side),
        0 <= k < own.len(),
    ensures
        pair_indexed(own.remove(k), opp, index.remove(own[k].id), own_side, opp_side),
{
    let n = own.remove(k);
    let x = own[k].id;
    let idx = index.remove(x);
    assert forall|i: int| 0 <= i < n.len() implies (#[trigger] n[i]) == own[if i < k {
        i
    } else {
        i + 1
    }] by {}
    assert forall|i: int, j: int| 0 <= i < j < n.len() implies (#[trigger] n[i]).id != (#[trigger] n[j]).id by {
        let a = if i < k {
            i
        } else {
            i + 1
        };
        let b = if j < k {
            j
        } else {
            j + 1
        };
        assert(own[a].id != own[b].id);
    }
    assert forall|i: int, j: int| 0 <= i < n.len() && 0 <= j < opp.len() implies (#[trigger] n[i]).id != (
    #[trigger] opp[j]).id by {
        let a = if i < k {
            i
        } else {
            i + 1
        };
        assert(own[a].id != opp[j].id);
    }
    assert forall|i: int| 0 <= i < n.len() implies idx.contains_key((#[trigger] n[i]).id) && idx[n[i].id] == (
        own_side,
        n[i].price.unwrap(),
    ) by {
        let a = if i < k {
            i
        } else {
            i + 1
        };
        assert(own[a].id != own[k].id);
        assert(index.contains_key(own[a].id));
    }
    assert forall|j: int| 0 <= j < opp.len() implies idx.contains_key((#[trigger] opp[j]).id) && idx[opp[j].id] == (
        opp_side,
        opp[j].price.unwrap(),
    ) by {
        assert(own[k].id != opp[j].id);
    }
    assert forall|y: OrderId| #[trigger] idx.contains_key(y) implies ids_of(n).contains(y) || ids_of(opp).contains(y) by {
        assert(index.contains_key(y) && y != x);
        if ids_of(own).contains(y) {
            let j = choose|j: int| 0 <= j < own.len() && own[j].id == y;
            assert(j != k);
            if j < k {
                assert(n[j].id == y);
            } else {
                assert(n[j - 1].id == y);
            }
        }
    }
}

/// Law: while the index fits the book, cancelling `id` takes out exactly the
/// order resting under `id`, and changes nothing when no order rests under
/// it; the index keeps fitting.
pub proof fn law_cancel_by_id(book: (Seq<Order>, Seq<Order>), meta: BookMeta, id: OrderId)
    requires
        indexed(book, meta.2),
    ensures
        ({
            let c = cancel_spec(book, meta.2.get(id), id);
            &&& forall|i: int|
                0 <= i < book.0.len() && (#[trigger] book.0[i]).id == id ==> c == (
                    Some(book.0[i]),
                    (book.0.remove(i), book.1),
                )
            &&& forall|i: int|
                0 <= i < book.1.len() && (#[trigger] book.1[i]).id == id ==> c == (
                    Some(book.1[i]),
                    (book.0, book.1.remove(i)),
                )
            &&& !is_resting(book, id) ==> c == (None::<Order>, book)
            &&& indexed(c.1, cancel_meta(book, meta, id).2)
        }),
{
    let c = cancel_spec(book, meta.2.get(id), id);
    let idx = cancel_meta(book, meta, id).2;
    assert(idx == meta.2.remove(id));
    assert forall|i: int| 0 <= i < book.0.len() && (#[trigger] book.0[i]).id == id implies c == (
        Some(book.0[i]),
        (book.0.remove(i), book.1),
    ) by {
        let v = book.0[i].price.unwrap().value();
        assert(meta.2.contains_key(book.0[i].id));
        assert(meta.2.get(id) == Some((Side::Bid, book.0[i].price.unwrap())));
        assert(is_first_with_id_at(book.0, id, v, i)) by {
            assert forall|j: int| 0 <= j < i implies !((#[trigger] book.0[j]).id == id && price_value(book.0[j]) == v) by {
                assert(book.0[j].id != book.0[i].id);
            }
        }
        let c0 = choose|c0: int| is_first_with_id_at(book.0, id, v, c0);
        lemma_first_with_id_at_unique(book.0, id, v, c0, i);
    }
    assert forall|i: int| 0 <= i < book.1.len() && (#[trigger] book.1[i]).id == id implies c == (
        Some(book.1[i]),
        (book.0, book.1.remove(i)),
    ) by {
        let v = book.1[i].price.unwrap().value();
        assert(meta.2.contains_key(book.1[i].id));
        assert(meta.2.get(id) == Some((Side::Ask, book.1[i].price.unwrap())));
        assert(is_first_with_id_at(book.1, id, v, i)) by {
            assert forall|j: int| 0 <= j < i implies !((#[trigger] book.1[j]).id == id && price_value(book.1[j]) == v) by {
                assert(book.1[j].id != book.1[i].id);
            }
        }
        let c0 = choose|c0: int| is_first_with_id_at(book.1, id, v, c0);
        lemma_first_with_id_at_unique(book.1, id, v, c0, i);
    }
    if !is_resting(book, id) {
        assert(!meta.2.contains_key(id));
        assert(idx =~= meta.2);
        assert(c == (None::<Order>, book));
    } else if ids_of(book.0).contains(id) {
        let i = choose|i: int| 0 <= i < book.0.len() && book.0[i].id == id;
        assert(book.0[i].id == id);
        lemma_remove_keeps_pair_indexed(book.0, book.1, meta.2, Side::Bid, Side::Ask, i);
    } else {
        let i = choose|i: int| 0 <= i < book.1.len() && book.1[i].id == id;
        assert(book.1[i].id == id);
        lemma_indexed_flip(book, meta.2);
        lemma_remove_keeps_pair_indexed(book.1, book.0, meta.2, Side::Ask, Side::Bid, i);
        lemma_indexed_flip(c.1, idx);
    }
}

/// No two of the prices share a value.
pub open spec fn distinct_values(l: Seq<Price>) -> bool {
    forall|a: int, b: int| 0 <= a < b < l.len() ==> (#[trigger] l[a]).value() != (#[trigger] l[b]).value()
}

/// Among prices of distinct values, the one with the value of `p` is found.
proof fn lemma_carry_price_hits(l: Seq<Price>, p: Price, j: int)
    requires
        distinct_values(l),
        0 <= j < l.len(),
        l[j].value() == p.value(),
    ensures
        carry_price(l, p) == l[j],
    decreases l.len(),
{
    if l[0].value() != p.value() {
        let r = l.drop_first();
        assert(r[j - 1] == l[j]);
        assert forall|a: int, b: int| 0 <= a < b < r.len() implies (#[trigger] r[a]).value() != (#[trigger] r[b]).value() by {
            assert(l[a + 1].value() != l[b + 1].value());
        }
        lemma_carry_price_hits(r, p, j - 1);
    } else if j > 0 {
        assert(l[0].value() != l[j].value());
    }
}

/// The level prices of a queue in price priority have distinct values.
proof fn lemma_levels_distinct(q: Seq<Order>, side: Side, l: Seq<Price>)
    requires
        side_wf(q, side),
        levels_match(q, l),
    ensures
        distinct_values(l),
{
    law_levels_strictly_ordered(q, side);
    let t = level_totals(q);
    assert forall|a: int, b: int| 0 <= a < b < l.len() implies (#[trigger] l[a]).value() != (#[trigger] l[b]).value() by {
        assert(strictly_better(side, t[a].0.value(), t[b].0.value()));
    }
}

/// Some level of `t` has the value `v`.
pub open spec fn has_level_at(t: Seq<(Price, Quantity)>, v: int) -> bool {
    exists|k: int| 0 <= k < t.len() && (#[trigger] t[k]).0.value() == v
}

/// `p` is the price of an order of `s`.
pub open spec fn is_order_price(s: Seq<Order>, p: Price) -> bool {
    exists|i: int| 0 <= i < s.len() && (#[trigger] s[i]).price.unwrap() == p
}

/// Every order's price value is the value of a level, and every level's
/// price is an order's price.
proof fn lemma_level_values(s: Seq<Order>)
    ensures
        forall|i: int| 0 <= i < s.len() ==> has_level_at(level_totals(s), price_value(#[trigger] s[i])),
        forall|k: int| 0 <= k < level_totals(s).len() ==> is_order_price(s, (#[trigger] level_totals(s)[k]).0),
    decreases s.len(),
{
    if s.len() > 0 {
        let init = s.drop_last();
        lemma_level_values(init);
        let prev = level_totals(init);
        let t = level_totals(s);
        let o = s.last();
        let merged = prev.len() > 0 && prev.last().0.value() == price_value(o);
        assert(t.len() >= prev.len());
        assert forall|k: int| 0 <= k < prev.len() implies (#[trigger] t[k]).0 == prev[k].0 by {
            if merged {
                assert(t == prev.update(prev.len() - 1, (prev.last().0, Amount::spec_add(prev.last().1, o.remaining))));
            } else {
                assert(t == prev.push((o.price.unwrap(), Amount::spec_add(Amount::from_parts((0, 0)), o.remaining))));
            }
        }
        assert forall|i: int| 0 <= i < s.len() implies has_level_at(t, price_value(#[trigger] s[i])) by {
            if i < s.len() - 1 {
                assert(s[i] == init[i]);
                assert(has_level_at(prev, price_value(init[i])));
                let k = choose|k: int| 0 <= k < prev.len() && (#[trigger] prev[k]).0.value() == price_value(init[i]);
                assert(t[k].0 == prev[k].0);
            } else if merged {
                assert(t[prev.len() - 1].0 == prev[prev.len() - 1].0);
            } else {
                assert(t[prev.len() as int].0 == o.price.unwrap());
            }
        }
        assert forall|k: int| 0 <= k < t.len() implies is_order_price(s, (#[trigger] t[k]).0) by {
            if k < prev.len() {
                assert(is_order_price(init, prev[k].0));
                let i = choose|i: int| 0 <= i < init.len() && (#[trigger] init[i]).price.unwrap() == prev[k].0;
                assert(s[i] == init[i]);
                assert(t[k].0 == prev[k].0);
            } else {
                assert(t[k].0 == s[s.len() - 1].price.unwrap());
            }
        }
    }
}

/// Level prices that fit a queue are carried over unchanged.
proof fn lemma_carry_same(q: Seq<Order>, side: Side, l: Seq<Price>)
    requires
        side_wf(q, side),
        levels_match(q, l),
    ensures
        carry_levels(l, q) == l,
{
    lemma_levels_distinct(q, side, l);
    let c = carry_levels(l, q);
    assert forall|k: int| 0 <= k < l.len() implies c[k] == l[k] by {
        lemma_carry_price_hits(l, level_totals(q)[k].0, k);
    }
    assert(c =~= l);
}

/// One level of the round trip below.
proof fn lemma_round_trip_level(
    q: Seq<Order>,
    l: Seq<Price>,
    c: Seq<Price>,
    joined: Seq<Order>,
    kk: int,
    o: Order,
    k: int,
)
    requires
        0 <= kk <= q.len(),
        joined == q.insert(kk, o),
        c == carry_levels(l, joined),
        levels_match(q, l),
        levels_match(joined, c),
        distinct_values(l),
        distinct_values(c),
        0 <= k < l.len(),
        forall|i: int| 0 <= i < joined.len() ==> has_level_at(level_totals(joined), price_value(#[trigger] joined[i])),
        forall|k: int| 0 <= k < level_totals(q).len() ==> is_order_price(q, (#[trigger] level_totals(q)[k]).0),
    ensures
        carry_levels(c, q)[k] == l[k],
{
    let tq = level_totals(q);
    let tj = level_totals(joined);
    assert(is_order_price(q, tq[k].0));
    let i = choose|i: int| 0 <= i < q.len() && (#[trigger] q[i]).price.unwrap() == tq[k].0;
    let ij = if i < kk {
        i
    } else {
        i + 1
    };
    assert(joined[ij] == q[i]);
    assert(has_level_at(tj, price_value(joined[ij])));
    let j = choose|j: int| 0 <= j < tj.len() && (#[trigger] tj[j]).0.value() == price_value(joined[ij]);
    assert(c[j].value() == tj[j].0.value());
    lemma_carry_price_hits(c, tq[k].0, j);
    assert(c[j] == carry_price(l, tj[j].0));
    lemma_carry_price_hits(l, tj[j].0, k);
}

/// Carrying level prices through a queue with one more order and back gives
/// them back.
proof fn lemma_carry_round_trip(q: Seq<Order>, side: Side, l: Seq<Price>, o: Order, kk: int)
    requires
        side_wf(q, side),
        side_wf(q.insert(kk, o), side),
        0 <= kk <= q.len(),
        levels_match(q, l),
    ensures
        carry_levels(carry_levels(l, q.insert(kk, o)), q) == l,
{
    let joined = q.insert(kk, o);
    let c = carry_levels(l, joined);
    let tq = level_totals(q);
    let tj = level_totals(joined);
    lemma_levels_distinct(q, side, l);
    assert(levels_match(joined, c)) by {
        assert forall|k: int| 0 <= k < c.len() implies (#[trigger] c[k]).value() == tj[k].0.value() by {
            crate::order_book::lemma_carry_price_value(l, tj[k].0);
        }
    }
    lemma_levels_distinct(joined, side, c);
    lemma_level_values(q);
    lemma_level_values(joined);
    let r = carry_levels(c, q);
    assert forall|k: int| 0 <= k < l.len() implies r[k] == l[k] by {
        lemma_round_trip_level(q, l, c, joined, kk, o, k);
    }
    assert(r =~= l);
}

/// Law: a limit order that does not cross, with an id new to the book and
/// its index, cancelled right after it came to rest, leaves the whole book
/// as it was: its queues, the prices its levels opened at (what `best_bid`,
/// `best_ask` and `depth` report) and its index.
pub proof fn law_cancel_restores_book_state(book: (Seq<Order>, Seq<Order>), meta: BookMeta, order: Order)
    requires
        book_wf(book),
        levels_match(book.0, meta.0),
        levels_match(book.1, meta.1),
        order.price is Some,
        order.price.unwrap().is_valid(),
        order.quantity.is_valid(),
        order.quantity.value() > 0,
        forall|i: int| 0 <= i < book.0.len() ==> (#[trigger] book.0[i]).id != order.id,
        forall|i: int| 0 <= i < book.1.len() ==> (#[trigger] book.1[i]).id != order.id,
        !meta.2.contains_key(order.id),
        opposite_queue(book, order.side).len() == 0 || !crosses(
            order.side,
            order.price,
            opposite_queue(book, order.side)[0],
        ),
    ensures
        ({
            let s = limit_spec(book, order);
            let m = limit_meta(book, meta, order);
            &&& cancel_spec(s.2, m.2.get(order.id), order.id) == (s.1, book)
            &&& cancel_meta(s.2, m, order.id) == meta
        }),
{
    law_cancel_undoes_resting_order(book, meta, order);
    let rested = Order { remaining: order.quantity, ..order };
    let s = limit_spec(book, order);
    let m = limit_meta(book, meta, order);
    let opp = opposite_queue(book, order.side);
    assert(match_dropped(opp, order, order.price, order.quantity) == 0);
    assert(opp.take(0) =~= Seq::<Order>::empty());
    assert(ids_of(Seq::<Order>::empty()) =~= Set::<OrderId>::empty());
    assert(index_after_match(meta.2, opp, order, order.price) =~= meta.2);
    assert(m.2 == meta.2.insert(order.id, (order.side, order.price.unwrap())));
    assert(m.2.remove(order.id) =~= meta.2);
    let own = if order.side == Side::Bid {
        book.0
    } else {
        book.1
    };
    lemma_rest_index_exists(own, order.side, rested);
    let k = choose|k: int| is_rest_index(own, order.side, rested, k);
    assert(insert_resting(own, order.side, rested) == own.insert(k, rested));
    if order.side == Side::Bid {
        crate::order_book::lemma_insert_keeps_wf(own, Side::Bid, rested, k);
        lemma_carry_round_trip(book.0, Side::Bid, meta.0, rested, k);
        lemma_carry_same(book.1, Side::Ask, meta.1);
    } else {
        crate::order_book::lemma_insert_keeps_wf(own, Side::Ask, rested, k);
        lemma_carry_round_trip(book.1, Side::Ask, meta.1, rested, k);
        lemma_carry_same(book.0, Side::Bid, meta.0);
    }
}

/// The sum of the remaining quantities of the orders of `s` whose price has
/// the value `v`.
pub open spec fn remaining_at(s: Seq<Order>, v: int) -> int
    decreases s.len(),
{
    if s.len() == 0 {
        0
    } else {
        remaining_at(s.drop_last(), v) + if price_value(s.last()) == v {
            s.last().remaining.value()
        } else {
            0
        }
    }
}

/// Every addition made while summing the levels of `s` is exact.
pub open spec fn level_sums_exact(s: Seq<Order>) -> bool
    decreases s.len(),
{
    if s.len() == 0 {
        true
    } else {
        let prev = level_totals(s.drop_last());
        let o = s.last();
        &&& level_sums_exact(s.drop_last())
        &&& prev.len() > 0 && prev.last().0.value() == price_value(o) ==> exact_add_sub(
            prev.last().1@,
            o.remaining@,
            1,
        ) is Some
    }
}

/// Orders of no price of value `v` sum to nothing at `v`.
proof fn lemma_remaining_at_none(s: Seq<Order>, v: int)
    requires
        forall|i: int| 0 <= i < s.len() ==> price_value(#[trigger] s[i]) != v,
    ensures
        remaining_at(s, v) == 0,
    decreases s.len(),
{
    if s.len() > 0 {
        let init = s.drop_last();
        assert forall|i: int| 0 <= i < init.len() implies price_value(#[trigger] init[i]) != v by {
            assert(init[i] == s[i]);
        }
        lemma_remaining_at_none(init, v);
        assert(price_value(s.last()) != v);
    }
}

/// Law: the total of each price level (what `depth` reports) is the sum of
/// the remaining quantities of all the queued orders at that level's
/// price, whenever the decimal additions are exact.
pub proof fn law_level_totals_are_sums(s: Seq<Order>, side: Side)
    requires
        side_wf(s, side),
        level_sums_exact(s),
    ensures
        forall|k: int|
            0 <= k < level_totals(s).len() ==> (#[trigger] level_totals(s)[k]).1.value() == remaining_at(
                s,
                level_totals(s)[k].0.value(),
            ) && level_totals(s)[k].1.is_valid(),
    decreases s.len(),
{
    if s.len() > 0 {
        let init = s.drop_last();
        assert(init =~= s.remove(s.len() - 1));
        crate::order_book::lemma_remove_keeps_wf(s, side, s.len() - 1);
        law_level_totals_are_sums(init, side);
        law_levels_strictly_ordered(init, side);
        lemma_level_values(init);
        let prev = level_totals(init);
        let t = level_totals(s);
        let o = s.last();
        let vo = price_value(o);
        assert(resting_ok(o, side));
        let merged = prev.len() > 0 && prev.last().0.value() == vo;
        if init.len() > 0 {
            assert(init.last() == s[s.len() - 2]);
            assert(at_least_as_good(side, s[s.len() - 2], o));
        }
        // no level but (when merged) the last one has the value of `o`
        assert forall|k: int| 0 <= k < prev.len() && !(merged && k == prev.len() - 1) implies (
        #[trigger] prev[k]).0.value() != vo by {
            if k < prev.len() - 1 {
                assert(strictly_better(side, prev[k].0.value(), prev[prev.len() - 1].0.value()));
            }
        }
        if merged {
            let last = prev.len() - 1;
            assert(t == prev.update(last, (prev.last().0, Amount::spec_add(prev.last().1, o.remaining))));
            Amount::lemma_add_exact(prev.last().1, o.remaining);
            assert forall|k: int| 0 <= k < t.len() implies (#[trigger] t[k]).1.value() == remaining_at(s, t[k].0.value())
                && t[k].1.is_valid() by {
                assert(prev[k].1.value() == remaining_at(init, prev[k].0.value()));
                if k < last {
                    assert(prev[k].0.value() != vo);
                }
            }
        } else {
            let z = Amount::from_parts((0, 0));
            Amount::lemma_from_parts((0, 0));
            assert(t == prev.push((o.price.unwrap(), Amount::spec_add(z, o.remaining))));
            Amount::lemma_add_exact(z, o.remaining);
            assert forall|i: int| 0 <= i < init.len() implies price_value(#[trigger] init[i]) != vo by {
                assert(has_level_at(prev, price_value(init[i])));
                let k = choose|k: int| 0 <= k < prev.len() && (#[trigger] prev[k]).0.value() == price_value(init[i]);
                assert(prev[k].0.value() != vo);
            }
            lemma_remaining_at_none(init, vo);
            assert forall|k: int| 0 <= k < t.len() implies (#[trigger] t[k]).1.value() == remaining_at(s, t[k].0.value())
                && t[k].1.is_valid() by {
                if k < prev.len() {
                    assert(prev[k].1.value() == remaining_at(init, prev[k].0.value()));
                    assert(prev[k].0.value() != vo);
                }
            }
        }
    }
}

} // verus!
