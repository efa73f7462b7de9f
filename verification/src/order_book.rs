//! A price-time priority limit order book for one symbol.
//!
//! Each side is a queue of resting orders in priority order: bids from the
//! highest price down, asks from the lowest price up, and orders at the same
//! price in the order they arrived (FIFO). Beside the queues the book keeps
//! the price each level opened at (what it reports as the level's price)
//! and an index from order id to the side and price the order rests at,
//! which cancellation follows.
use vstd::prelude::*;
use std::collections::HashMap;
use crate::amount::Amount;
use crate::order::{MatchResult, Order, OrderId, Price, Quantity, Side, Trade};
use crate::book_laws::{
    law_cancel_by_id, law_cancel_keeps_book_uncrossed, law_limit_order_keeps_book_uncrossed,
    law_limit_order_keeps_index, law_market_order_keeps_book_uncrossed, law_market_order_keeps_index,
};

verus! {

/// The value of an order's price (its limit).
pub open spec fn price_value(o: Order) -> int {
    o.price.unwrap().value()
}

/// Whether `a` is priced at least as well as `b` for the queue of `side`
/// (higher for bids, lower for asks).
pub open spec fn at_least_as_good(side: Side, a: Order, b: Order) -> bool {
    match side {
        Side::Bid => price_value(a) >= price_value(b),
        Side::Ask => price_value(a) <= price_value(b),
    }
}

/// What every order resting on `side` satisfies.
pub open spec fn resting_ok(o: Order, side: Side) -> bool {
    &&& o.side == side
    &&& o.price is Some
    &&& o.price.unwrap().is_valid()
    &&& o.remaining.is_valid()
    &&& o.remaining.value() > 0
}

/// A well-formed queue for `side`: resting orders in price priority.
pub open spec fn side_wf(s: Seq<Order>, side: Side) -> bool {
    &&& forall|i: int| 0 <= i < s.len() ==> resting_ok(#[trigger] s[i], side)
    &&& forall|i: int, j: int|
        0 <= i < j < s.len() ==> at_least_as_good(side, #[trigger] s[i], #[trigger] s[j])
}

/// A well-formed book: (bids, asks).
pub open spec fn book_wf(b: (Seq<Order>, Seq<Order>)) -> bool {
    side_wf(b.0, Side::Bid) && side_wf(b.1, Side::Ask)
}

/// Neither side's best price reaches the other's: the best bid is strictly
/// below the best ask (or a side is empty).
pub open spec fn uncrossed(b: (Seq<Order>, Seq<Order>)) -> bool {
    b.0.len() > 0 && b.1.len() > 0 ==> price_value(b.0[0]) < price_value(b.1[0])
}

/// Whether an incoming order on `taker_side` with the given limit (none for
/// a market order) trades against the resting order.
pub open spec fn crosses(taker_side: Side, limit: Option<Price>, resting: Order) -> bool {
    match limit {
        None => true,
        Some(l) => match taker_side {
            Side::Bid => price_value(resting) <= l.value(),
            Side::Ask => price_value(resting) >= l.value(),
        },
    }
}

/// The trade of `fill` between a resting (maker) and an incoming (taker) order.
pub open spec fn trade_of(resting: Order, taker: Order, fill: Quantity) -> Trade {
    Trade {
        maker_order_id: resting.id,
        taker_order_id: taker.id,
        symbol: taker.symbol,
        price: resting.price.unwrap(),
        quantity: fill,
        sequence_id: taker.sequence_id,
    }
}

/// Matching an incoming quantity `inc` of `taker` against the queue `opp`,
/// head first: each step fills `min(resting, incoming)` at the resting
/// order's price, and the resting order leaves the queue once it is filled.
/// The outcome is the trades, the incoming quantity left, and the queue.
pub open spec fn match_spec(opp: Seq<Order>, taker: Order, limit: Option<Price>, inc: Quantity) -> (
    Seq<Trade>,
    Quantity,
    Seq<Order>,
)
    decreases opp.len(),
{
    if inc.value() <= 0 || opp.len() == 0 || !crosses(taker.side, limit, opp[0]) {
        (Seq::empty(), inc, opp)
    } else {
        let resting = opp[0];
        let fill = Amount::spec_min(resting.remaining, inc);
        let inc2 = Amount::spec_sub(inc, fill);
        let rem2 = Amount::spec_sub(resting.remaining, fill);
        let t = trade_of(resting, taker, fill);
        if rem2.value() > 0 {
            (seq![t], inc2, opp.update(0, Order { remaining: rem2, ..resting }))
        } else {
            let rest = match_spec(opp.drop_first(), taker, limit, inc2);
            (seq![t] + rest.0, rest.1, rest.2)
        }
    }
}

/// `k` is where an order `o` joins the queue `s` of `side`: after every
/// order priced at least as well, before every order priced worse.
pub open spec fn is_rest_index(s: Seq<Order>, side: Side, o: Order, k: int) -> bool {
    &&& 0 <= k <= s.len()
    &&& forall|i: int| 0 <= i < k ==> at_least_as_good(side, #[trigger] s[i], o)
    &&& forall|i: int| k <= i < s.len() ==> !at_least_as_good(side, #[trigger] s[i], o)
}

/// The queue `s` of `side` once `o` has joined it.
pub open spec fn insert_resting(s: Seq<Order>, side: Side, o: Order) -> Seq<Order> {
    s.insert(choose|k: int| is_rest_index(s, side, o, k), o)
}

/// A limit order submitted to `book`: the trades, what is left of the order
/// (it then rests in the book), and the book afterwards.
pub open spec fn limit_spec(book: (Seq<Order>, Seq<Order>), order: Order) -> (
    Seq<Trade>,
    Option<Order>,
    (Seq<Order>, Seq<Order>),
) {
    let opp = if order.side == Side::Bid {
        book.1
    } else {
        book.0
    };
    let m = match_spec(opp, order, order.price, order.quantity);
    let rested = Order { remaining: m.1, ..order };
    if m.1.value() > 0 {
        if order.side == Side::Bid {
            (m.0, Some(rested), (insert_resting(book.0, Side::Bid, rested), m.2))
        } else {
            (m.0, Some(rested), (m.2, insert_resting(book.1, Side::Ask, rested)))
        }
    } else {
        if order.side == Side::Bid {
            (m.0, None, (book.0, m.2))
        } else {
            (m.0, None, (m.2, book.1))
        }
    }
}

/// A market order submitted to `book`: it trades against the opposite side
/// until it is filled or that side is empty, and never rests.
pub open spec fn market_spec(book: (Seq<Order>, Seq<Order>), order: Order) -> (
    Seq<Trade>,
    Option<Order>,
    (Seq<Order>, Seq<Order>),
) {
    let opp = if order.side == Side::Bid {
        book.1
    } else {
        book.0
    };
    let m = match_spec(opp, order, None, order.quantity);
    let left = if m.1.value() > 0 {
        Some(Order { remaining: m.1, ..order })
    } else {
        None
    };
    if order.side == Side::Bid {
        (m.0, left, (book.0, m.2))
    } else {
        (m.0, left, (m.2, book.1))
    }
}

/// `i` is the first position of the queue holding order `id` at a price of
/// value `v` (the first of that id in the level of `v`).
pub open spec fn is_first_with_id_at(s: Seq<Order>, id: OrderId, v: int, i: int) -> bool {
    &&& 0 <= i < s.len()
    &&& s[i].id == id
    &&& price_value(s[i]) == v
    &&& forall|j: int| 0 <= j < i ==> !((#[trigger] s[j]).id == id && price_value(s[j]) == v)
}

/// Cancelling order `id`, given what the index holds for it (`entry`: the
/// side and price it was last rested at): the first order with that id in
/// that side's level of that price is taken out; without an entry, or
/// without such an order, the book is left as it is.
pub open spec fn cancel_spec(book: (Seq<Order>, Seq<Order>), entry: Option<(Side, Price)>, id: OrderId) -> (
    Option<Order>,
    (Seq<Order>, Seq<Order>),
) {
    if entry is None {
        (None, book)
    } else if entry.unwrap().0 == Side::Bid {
        let v = entry.unwrap().1.value();
        if exists|i: int| is_first_with_id_at(book.0, id, v, i) {
            let i = choose|i: int| is_first_with_id_at(book.0, id, v, i);
            (Some(book.0[i]), (book.0.remove(i), book.1))
        } else {
            (None, book)
        }
    } else {
        let v = entry.unwrap().1.value();
        if exists|i: int| is_first_with_id_at(book.1, id, v, i) {
            let i = choose|i: int| is_first_with_id_at(book.1, id, v, i);
            (Some(book.1[i]), (book.0, book.1.remove(i)))
        } else {
            (None, book)
        }
    }
}

/// The price levels of a queue, best first: each level's price (that of
/// the first order at it) and the sum of the remaining quantities at it,
/// summed from zero in queue order.
pub open spec fn level_totals(s: Seq<Order>) -> Seq<(Price, Quantity)>
    decreases s.len(),
{
    if s.len() == 0 {
        Seq::empty()
    } else {
        let prev = level_totals(s.drop_last());
        let o = s.last();
        if prev.len() > 0 && prev.last().0.value() == price_value(o) {
            prev.update(prev.len() - 1, (prev.last().0, Amount::spec_add(prev.last().1, o.remaining)))
        } else {
            prev.push((o.price.unwrap(), Amount::spec_add(Amount::from_parts((0, 0)), o.remaining)))
        }
    }
}

/// The orders' ids.
pub open spec fn ids_of(s: Seq<Order>) -> Set<OrderId> {
    Set::new(|id: OrderId| exists|i: int| 0 <= i < s.len() && s[i].id == id)
}

/// How many resting orders matching fills completely (they leave the
/// queue, from its head); see `match_spec`.
pub open spec fn match_dropped(opp: Seq<Order>, taker: Order, limit: Option<Price>, inc: Quantity) -> nat
    decreases opp.len(),
{
    if inc.value() <= 0 || opp.len() == 0 || !crosses(taker.side, limit, opp[0]) {
        0
    } else {
        let resting = opp[0];
        let fill = Amount::spec_min(resting.remaining, inc);
        let inc2 = Amount::spec_sub(inc, fill);
        let rem2 = Amount::spec_sub(resting.remaining, fill);
        if rem2.value() > 0 {
            0
        } else {
            1 + match_dropped(opp.drop_first(), taker, limit, inc2)
        }
    }
}

/// No two orders of `s` share an id.
pub open spec fn distinct_ids(s: Seq<Order>) -> bool {
    forall|i: int, j: int| 0 <= i < j < s.len() ==> (#[trigger] s[i]).id != (#[trigger] s[j]).id
}

/// No order of `a` shares an id with an order of `b`.
pub open spec fn disjoint_ids(a: Seq<Order>, b: Seq<Order>) -> bool {
    forall|i: int, j: int| 0 <= i < a.len() && 0 <= j < b.len() ==> (#[trigger] a[i]).id != (#[trigger] b[j]).id
}

/// The index holds every order of `q` at `side` and at the order's price.
pub open spec fn queue_indexed(q: Seq<Order>, index: Map<OrderId, (Side, Price)>, side: Side) -> bool {
    forall|i: int|
        0 <= i < q.len() ==> index.contains_key((#[trigger] q[i]).id) && index[q[i].id] == (side, q[i].price.unwrap())
}

/// Two queues and an index that fit: every order has an id of its own, is
/// indexed at its side and price, and every index entry is one of them.
pub open spec fn pair_indexed(
    own: Seq<Order>,
    opp: Seq<Order>,
    index: Map<OrderId, (Side, Price)>,
    own_side: Side,
    opp_side: Side,
) -> bool {
    &&& distinct_ids(own)
    &&& distinct_ids(opp)
    &&& disjoint_ids(own, opp)
    &&& queue_indexed(own, index, own_side)
    &&& queue_indexed(opp, index, opp_side)
    &&& forall|id: OrderId| #[trigger] index.contains_key(id) ==> ids_of(own).contains(id) || ids_of(opp).contains(id)
}

/// The index fits the book (bids, asks): it holds exactly the resting
/// orders, each at its side and price, and no id rests twice.
pub open spec fn indexed(b: (Seq<Order>, Seq<Order>), index: Map<OrderId, (Side, Price)>) -> bool {
    pair_indexed(b.0, b.1, index, Side::Bid, Side::Ask)
}

/// Some order `id` rests in the book.
pub open spec fn is_resting(b: (Seq<Order>, Seq<Order>), id: OrderId) -> bool {
    ids_of(b.0).contains(id) || ids_of(b.1).contains(id)
}

/// What a book keeps beside its queues: the price each bid level and each
/// ask level opened at, best first, and the index from an order id to the
/// side and price of the order last rested under that id.
pub type BookMeta = (Seq<Price>, Seq<Price>, Map<OrderId, (Side, Price)>);

/// The price of the first of `levels` with the value of `p`, or `p` itself
/// when none has it.
pub open spec fn carry_price(levels: Seq<Price>, p: Price) -> Price
    decreases levels.len(),
{
    if levels.len() == 0 {
        p
    } else if levels[0].value() == p.value() {
        levels[0]
    } else {
        carry_price(levels.drop_first(), p)
    }
}

/// The level prices of queue `s`: a level that was already there keeps the
/// price it opened at (in `levels`); a new one opens at its order's price.
pub open spec fn carry_levels(levels: Seq<Price>, s: Seq<Order>) -> Seq<Price> {
    level_totals(s).map_values(|e: (Price, Quantity)| carry_price(levels, e.0))
}

/// The level prices fit the queue: one per level, of the level's value.
pub open spec fn levels_match(s: Seq<Order>, levels: Seq<Price>) -> bool {
    &&& levels.len() == level_totals(s).len()
    &&& forall|k: int| 0 <= k < levels.len() ==> (#[trigger] levels[k]).value() == level_totals(s)[k].0.value()
}

/// The level prices once the queues have become `b`.
pub open spec fn relevel(meta: BookMeta, b: (Seq<Order>, Seq<Order>)) -> (Seq<Price>, Seq<Price>) {
    (carry_levels(meta.0, b.0), carry_levels(meta.1, b.1))
}

/// The index after matching against `opp` (the filled resting orders' ids
/// leave it).
pub open spec fn index_after_match(
    index: Map<OrderId, (Side, Price)>,
    opp: Seq<Order>,
    taker: Order,
    limit: Option<Price>,
) -> Map<OrderId, (Side, Price)> {
    index.remove_keys(ids_of(opp.take(match_dropped(opp, taker, limit, taker.quantity) as int)))
}

/// What the book keeps after a limit order: its levels follow the queues,
/// the filled resting orders leave the index, and the order enters it when
/// it comes to rest.
pub open spec fn limit_meta(book: (Seq<Order>, Seq<Order>), meta: BookMeta, order: Order) -> BookMeta {
    let opp = if order.side == Side::Bid {
        book.1
    } else {
        book.0
    };
    let s = limit_spec(book, order);
    let l = relevel(meta, s.2);
    let idx = index_after_match(meta.2, opp, order, order.price);
    (l.0, l.1, if s.1 is Some {
        idx.insert(order.id, (order.side, order.price.unwrap()))
    } else {
        idx
    })
}

/// What the book keeps after a market order.
pub open spec fn market_meta(book: (Seq<Order>, Seq<Order>), meta: BookMeta, order: Order) -> BookMeta {
    let opp = if order.side == Side::Bid {
        book.1
    } else {
        book.0
    };
    let l = relevel(meta, market_spec(book, order).2);
    (l.0, l.1, index_after_match(meta.2, opp, order, None))
}

/// What the book keeps after cancelling `id`: the id leaves the index.
pub open spec fn cancel_meta(book: (Seq<Order>, Seq<Order>), meta: BookMeta, id: OrderId) -> BookMeta {
    let l = relevel(meta, cancel_spec(book, meta.2.get(id), id).1);
    (l.0, l.1, meta.2.remove(id))
}

/// The level (price, total) pairs of a queue whose levels opened at `levels`.
pub open spec fn level_view(levels: Seq<Price>, s: Seq<Order>) -> Seq<(Price, Quantity)> {
    Seq::new(level_totals(s).len(), |k: int| (levels[k], level_totals(s)[k].1))
}

/// The first `n` levels of a queue.
pub open spec fn top_levels(levels: Seq<Price>, s: Seq<Order>, n: int) -> Seq<(Price, Quantity)> {
    let t = level_view(levels, s);
    if n < t.len() {
        t.take(n)
    } else {
        t
    }
}

/// The best level's price, if any.
pub open spec fn best_level(levels: Seq<Price>) -> Option<Price> {
    if levels.len() > 0 {
        Some(levels[0])
    } else {
        None
    }
}

pub struct OrderBook {
    pub symbol: String,
    bids: Vec<Order>,
    asks: Vec<Order>,
    /// The price each bid level opened at, best first.
    bid_levels: Vec<Price>,
    /// The price each ask level opened at, best first.
    ask_levels: Vec<Price>,
    /// Order id to the side and price of the order last rested under it.
    index: HashMap<OrderId, (Side, Price)>,
}

pub struct Depth {
    pub bids: Vec<(Price, Quantity)>,
    pub asks: Vec<(Price, Quantity)>,
}

/// A book is seen as its two queues: (bids, asks).
impl View for OrderBook {
    type V = (Seq<Order>, Seq<Order>);

    closed spec fn view(&self) -> (Seq<Order>, Seq<Order>) {
        (self.bids@, self.asks@)
    }
}

impl OrderBook {
    /// Both queues are in price priority, the book is not crossed, and the
    /// level prices fit the queues.
    pub open spec fn wf(&self) -> bool {
        &&& book_wf(self@)
        &&& uncrossed(self@)
        &&& levels_match(self@.0, self.meta().0)
        &&& levels_match(self@.1, self.meta().1)
    }

    /// The index fits the resting orders (see `indexed`). A book built with
    /// a fresh id for every limit order keeps this.
    pub open spec fn indexed(&self) -> bool {
        indexed(self@, self.meta().2)
    }

    /// What the book keeps beside its queues (see `BookMeta`).
    pub closed spec fn meta(&self) -> BookMeta {
        (self.bid_levels@, self.ask_levels@, self.index@)
    }

    /// The symbol the book trades.
    pub closed spec fn spec_symbol(&self) -> String {
        self.symbol
    }

    /// The symbol the book trades.
    pub fn symbol_name(&self) -> (r: &String)
        ensures
            *r == self.spec_symbol(),
    {
        &self.symbol
    }

    pub fn new(symbol: &str) -> (r: OrderBook)
        ensures
            r@ == (Seq::<Order>::empty(), Seq::<Order>::empty()),
            r.meta() == (Seq::<Price>::empty(), Seq::<Price>::empty(), Map::<OrderId, (Side, Price)>::empty()),
            r.spec_symbol()@ == symbol@,
            r.wf(),
            r.indexed(),
    {
        let r = OrderBook {
            symbol: symbol.to_owned(),
            bids: Vec::new(),
            asks: Vec::new(),
            bid_levels: Vec::new(),
            ask_levels: Vec::new(),
            index: HashMap::new(),
        };
        proof {
            assert(level_totals(r.bids@) =~= Seq::<(Price, Quantity)>::empty());
            assert(level_totals(r.asks@) =~= Seq::<(Price, Quantity)>::empty());
            assert(r.index@ =~= Map::<OrderId, (Side, Price)>::empty());
        }
        r
    }

    /// Best (highest) bid price, or None if the book is empty on that side:
    /// the price the best bid level opened at.
    pub fn best_bid(&self) -> (r: Option<Price>)
        requires
            self.wf(),
        ensures
            r == best_level(self.meta().0),
            r is Some <==> self@.0.len() > 0,
            r matches Some(p) ==> p.value() == price_value(self@.0[0]) && forall|i: int|
                0 <= i < self@.0.len() ==> price_value(#[trigger] self@.0[i]) <= p.value(),
    {
        proof {
            crate::book_laws::law_levels_strictly_ordered(self@.0, Side::Bid);
        }
        if self.bid_levels.len() > 0 {
            Some(self.bid_levels[0])
        } else {
            None
        }
    }

    /// Best (lowest) ask price, or None if the book is empty on that side:
    /// the price the best ask level opened at.
    pub fn best_ask(&self) -> (r: Option<Price>)
        requires
            self.wf(),
        ensures
            r == best_level(self.meta().1),
            r is Some <==> self@.1.len() > 0,
            r matches Some(p) ==> p.value() == price_value(self@.1[0]) && forall|i: int|
                0 <= i < self@.1.len() ==> price_value(#[trigger] self@.1[i]) >= p.value(),
    {
        proof {
            crate::book_laws::law_levels_strictly_ordered(self@.1, Side::Ask);
        }
        if self.ask_levels.len() > 0 {
            Some(self.ask_levels[0])
        } else {
            None
        }
    }

    /// Returns ask - bid, or None if either side is empty. The spread of a
    /// book is always positive: the book is never crossed.
    pub fn spread(&self) -> (r: Option<Price>)
        requires
            self.wf(),
        ensures
            r == (match (best_level(self.meta().1), best_level(self.meta().0)) {
                (Some(a), Some(b)) => Some(Amount::spec_sub(a, b)),
                _ => None,
            }),
            r matches Some(s) ==> s.value() > 0,
    {
        let ask_price = self.best_ask();
        let bid_price = self.best_bid();
        match (ask_price, bid_price) {
            (Some(ask), Some(bid)) => Some(ask.minus(bid)),
            _ => None,
        }
    }
}

proof fn lemma_rest_index_unique(s: Seq<Order>, side: Side, o: Order, k1: int, k2: int)
    requires
        is_rest_index(s, side, o, k1),
        is_rest_index(s, side, o, k2),
    ensures
        k1 == k2,
{
    if k1 < k2 {
        assert(at_least_as_good(side, s[k1], o));
    } else if k2 < k1 {
        assert(at_least_as_good(side, s[k2], o));
    }
}

/// Whether an incoming order trades against the resting order.
fn crosses_exec(taker_side: Side, limit: Option<Price>, resting: &Order) -> (r: bool)
    requires
        resting.price is Some,
    ensures
        r == crosses(taker_side, limit, *resting),
{
    match limit {
        None => true,
        Some(l) => {
            let p = resting.price.unwrap();
            match taker_side {
                Side::Bid => p.le(&l),
                Side::Ask => l.le(&p),
            }
        },
    }
}

/// Whether `a` is priced at least as well as `b` in the queue of `side`.
fn at_least_as_good_exec(side: Side, a: &Order, b: &Order) -> (r: bool)
    requires
        a.price is Some,
        b.price is Some,
    ensures
        r == at_least_as_good(side, *a, *b),
{
    let pa = a.price.unwrap();
    let pb = b.price.unwrap();
    match side {
        Side::Bid => pb.le(&pa),
        Side::Ask => pa.le(&pb),
    }
}

/// Puts `o` into the queue `s` of `side` behind every order priced at least
/// as well.
fn insert_resting_exec(s: &mut Vec<Order>, side: Side, o: Order)
    requires
        side_wf(old(s)@, side),
        resting_ok(o, side),
    ensures
        final(s)@ == insert_resting(old(s)@, side, o),
        side_wf(final(s)@, side),
{
    let ghost s0 = s@;
    let mut k: usize = 0;
    while k < s.len() && at_least_as_good_exec(side, &s[k], &o)
        invariant
            s@ == s0,
            side_wf(s0, side),
            resting_ok(o, side),
            0 <= k <= s0.len(),
            forall|i: int| 0 <= i < k ==> at_least_as_good(side, #[trigger] s0[i], o),
        decreases s0.len() - k,
    {
        k = k + 1;
    }
    proof {
        assert forall|i: int| k <= i < s0.len() implies !at_least_as_good(side, #[trigger] s0[i], o) by {
            if at_least_as_good(side, s0[i], o) && k < i {
                assert(at_least_as_good(side, s0[k as int], s0[i]));
            }
        }
        assert(is_rest_index(s0, side, o, k as int));
        let c = choose|c: int| is_rest_index(s0, side, o, c);
        lemma_rest_index_unique(s0, side, o, c, k as int);
    }
    proof {
        lemma_insert_keeps_wf(s0, side, o, k as int);
    }
    s.insert(k, o);
}

/// An order joining a queue at its place keeps the queue well formed.
pub proof fn lemma_insert_keeps_wf(s0: Seq<Order>, side: Side, o: Order, k: int)
    requires
        side_wf(s0, side),
        resting_ok(o, side),
        is_rest_index(s0, side, o, k),
    ensures
        side_wf(s0.insert(k, o), side),
{
    let s1 = s0.insert(k, o);
    assert forall|i: int| 0 <= i < s1.len() implies resting_ok(#[trigger] s1[i], side) by {
        if i < k {
            assert(s1[i] == s0[i]);
        } else if i > k {
            assert(s1[i] == s0[i - 1]);
        }
    }
    assert forall|i: int, j: int| 0 <= i < j < s1.len() implies at_least_as_good(
        side,
        #[trigger] s1[i],
        #[trigger] s1[j],
    ) by {
        if j < k {
            assert(at_least_as_good(side, s0[i], s0[j]));
        } else if j == k {
            assert(at_least_as_good(side, s0[i], o));
        } else if i < k {
            assert(at_least_as_good(side, s0[i], s0[j - 1]));
        } else if i == k {
            assert(!at_least_as_good(side, s0[j - 1], o));
        } else {
            assert(at_least_as_good(side, s0[i - 1], s0[j - 1]));
        }
    }
}

/// Taking the orders up to `r + 1` out of the index is taking those up to `r`
/// and then the order at `r`.
proof fn lemma_remove_next_id(index: Map<OrderId, (Side, Price)>, s: Seq<Order>, r: int)
    requires
        0 <= r < s.len(),
    ensures
        index.remove_keys(ids_of(s.take(r + 1))) == index.remove_keys(ids_of(s.take(r))).remove(s[r].id),
{
    assert(ids_of(s.take(r + 1)) =~= ids_of(s.take(r)).insert(s[r].id)) by {
        assert forall|id: OrderId| ids_of(s.take(r + 1)).contains(id) implies ids_of(s.take(r)).insert(
            s[r].id,
        ).contains(id) by {
            let i = choose|i: int| 0 <= i < s.take(r + 1).len() && (#[trigger] s.take(r + 1)[i]).id == id;
            if i < r {
                assert(s.take(r)[i].id == id);
            }
        }
        assert forall|id: OrderId| ids_of(s.take(r)).insert(s[r].id).contains(id) implies ids_of(
            s.take(r + 1),
        ).contains(id) by {
            if id == s[r].id {
                assert(s.take(r + 1)[r].id == id);
            } else {
                let i = choose|i: int| 0 <= i < s.take(r).len() && (#[trigger] s.take(r)[i]).id == id;
                assert(s.take(r + 1)[i].id == id);
            }
        }
    }
    assert(index.remove_keys(ids_of(s.take(r + 1))) =~= index.remove_keys(ids_of(s.take(r))).remove(s[r].id));
}

/// Matches `taker` (its full quantity) against the queue `opp`, appending
/// the trades and taking the filled resting orders out of the index;
/// returns the quantity left.
fn match_incoming(
    opp: &mut Vec<Order>,
    taker: &Order,
    limit: Option<Price>,
    trades: &mut Vec<Trade>,
    index: &mut HashMap<OrderId, (Side, Price)>,
) -> (inc: Quantity)
    requires
        side_wf(old(opp)@, taker.side.spec_opposite()),
    ensures
        side_wf(final(opp)@, taker.side.spec_opposite()),
        ({
            let m = match_spec(old(opp)@, *taker, limit, taker.quantity);
            &&& final(trades)@ == old(trades)@ + m.0
            &&& inc == m.1
            &&& final(opp)@ == m.2
        }),
        final(index)@ == index_after_match(old(index)@, old(opp)@, *taker, limit),
{
    broadcast use vstd::std_specs::hash::group_hash_axioms;

    let ghost side = taker.side.spec_opposite();
    let ghost opp0 = opp@;
    let ghost m0 = match_spec(opp@, *taker, limit, taker.quantity);
    let ghost d0 = match_dropped(opp@, *taker, limit, taker.quantity);
    let ghost index0 = index@;
    let ghost trades0 = trades@;
    let ghost mut done: Seq<Trade> = Seq::empty();
    let ghost mut removed: int = 0;
    let mut inc = taker.quantity;
    let mut go = inc.is_positive() && opp.len() > 0 && crosses_exec(taker.side, limit, &opp[0]);
    proof {
        assert(trades@ =~= trades0 + done);
        assert(m0.0 =~= done + m0.0);
        assert(index@ =~= index0.remove_keys(ids_of(opp0.take(0))));
    }
    while go
        invariant
            side_wf(opp@, side),
            side == taker.side.spec_opposite(),
            go == (inc.value() > 0 && opp@.len() > 0 && crosses(taker.side, limit, opp@[0])),
            trades@ == trades0 + done,
            ({
                let m = match_spec(opp@, *taker, limit, inc);
                &&& m0.0 == done + m.0
                &&& m0.1 == m.1
                &&& m0.2 == m.2
            }),
            0 <= removed,
            d0 == removed + match_dropped(opp@, *taker, limit, inc),
            opp@.len() + removed == opp0.len(),
            forall|i: int| 0 <= i < opp@.len() ==> (#[trigger] opp@[i]).id == opp0[removed + i].id,
            index@ == index0.remove_keys(ids_of(opp0.take(removed))),
        decreases 2 * opp@.len() + (if go { 1int } else { 0int }),
    {
        let ghost opp_before = opp@;
        let ghost inc_before = inc;
        let mut resting = opp.remove(0);
        proof {
            assert(resting == opp_before[0]);
            assert(resting_ok(opp_before[0], side));
            use_type_invariant(&inc);
        }
        let fill = resting.remaining.min(inc);
        let inc2 = inc.minus(fill);
        let rem2 = resting.remaining.minus(fill);
        let t = Trade {
            maker_order_id: resting.id,
            taker_order_id: taker.id,
            symbol: taker.symbol.clone(),
            price: resting.price.unwrap(),
            quantity: fill,
            sequence_id: taker.sequence_id,
        };
        let ghost tg = t;
        assert(tg == trade_of(resting, *taker, fill));
        trades.push(t);
        proof {
            done = done.push(tg);
            assert(trades@ =~= trades0 + done);
        }
        inc = inc2;
        if rem2.is_positive() {
            proof {
                if !(inc_before.value() < resting.remaining.value()) {
                    Amount::lemma_sub_self(resting.remaining);
                }
                Amount::lemma_sub_self(inc_before);
                use_type_invariant(&rem2);
            }
            resting.remaining = rem2;
            opp.insert(0, resting);
            proof {
                assert(opp@ =~= opp_before.update(0, resting));
                assert forall|i: int| 0 <= i < opp@.len() implies resting_ok(#[trigger] opp@[i], side) by {
                    if i > 0 {
                        assert(opp@[i] == opp_before[i]);
                    }
                }
                assert forall|i: int, j: int| 0 <= i < j < opp@.len() implies at_least_as_good(
                    side,
                    #[trigger] opp@[i],
                    #[trigger] opp@[j],
                ) by {
                    assert(at_least_as_good(side, opp_before[i], opp_before[j]));
                }
                assert forall|i: int| 0 <= i < opp@.len() implies (#[trigger] opp@[i]).id == opp0[removed + i].id by {
                    assert(opp@[i].id == opp_before[i].id);
                }
            }
        } else {
            let ghost gone = resting.id;
            index.remove(&resting.id);
            proof {
                assert(opp_before[0].id == opp0[removed].id);
                lemma_remove_next_id(index0, opp0, removed);
                removed = removed + 1;
                assert(opp@ =~= opp_before.drop_first());
                assert forall|i: int, j: int| 0 <= i < j < opp@.len() implies at_least_as_good(
                    side,
                    #[trigger] opp@[i],
                    #[trigger] opp@[j],
                ) by {
                    assert(at_least_as_good(side, opp_before[i + 1], opp_before[j + 1]));
                }
                assert forall|i: int| 0 <= i < opp@.len() implies (#[trigger] opp@[i]).id == opp0[removed + i].id by {
                    assert(opp@[i] == opp_before[i + 1]);
                }
            }
        }
        go = inc.is_positive() && opp.len() > 0 && crosses_exec(taker.side, limit, &opp[0]);
        proof {
            let m = match_spec(opp@, *taker, limit, inc);
            if rem2.value() > 0 {
                assert(m.0 =~= Seq::<Trade>::empty());
                assert(m0.0 =~= done + m.0);
            } else {
                assert(m0.0 =~= done + m.0);
            }
        }
    }
    proof {
        assert(m0.0 =~= done);
    }
    inc
}

/// The price of the first of `levels` with the value of `p`, else `p`.
fn carry_price_exec(levels: &Vec<Price>, p: Price) -> (r: Price)
    ensures
        r == carry_price(levels@, p),
{
    let mut j: usize = 0;
    proof {
        assert(levels@.skip(0) =~= levels@);
    }
    while j < levels.len()
        invariant
            0 <= j <= levels@.len(),
            carry_price(levels@, p) == carry_price(levels@.skip(j as int), p),
        decreases levels@.len() - j,
    {
        proof {
            assert(levels@.skip(j as int)[0] == levels@[j as int]);
            assert(levels@.skip(j as int).drop_first() =~= levels@.skip(j as int + 1));
        }
        if levels[j] == p {
            return levels[j];
        }
        j = j + 1;
    }
    proof {
        assert(levels@.skip(j as int).len() == 0);
    }
    p
}

/// A carried price has the value of the price looked up.
pub proof fn lemma_carry_price_value(levels: Seq<Price>, p: Price)
    ensures
        carry_price(levels, p).value() == p.value(),
    decreases levels.len(),
{
    if levels.len() > 0 && levels[0].value() != p.value() {
        lemma_carry_price_value(levels.drop_first(), p);
    }
}

/// The level prices of `s`, carried over from `levels` (see `carry_levels`).
fn carry_levels_exec(levels: &Vec<Price>, s: &Vec<Order>) -> (r: Vec<Price>)
    requires
        forall|i: int| 0 <= i < s@.len() ==> (#[trigger] s@[i]).price is Some,
    ensures
        r@ == carry_levels(levels@, s@),
        levels_match(s@, r@),
{
    let t = level_totals_exec(s);
    let mut out: Vec<Price> = Vec::new();
    let mut k: usize = 0;
    while k < t.len()
        invariant
            0 <= k <= t@.len(),
            t@ == level_totals(s@),
            out@ == carry_levels(levels@, s@).take(k as int),
        decreases t@.len() - k,
    {
        let p = carry_price_exec(levels, t[k].0);
        out.push(p);
        proof {
            assert(out@ =~= carry_levels(levels@, s@).take(k as int + 1));
        }
        k = k + 1;
    }
    proof {
        let c = carry_levels(levels@, s@);
        assert(c.take(c.len() as int) =~= c);
        assert forall|k: int| 0 <= k < c.len() implies (#[trigger] c[k]).value() == level_totals(s@)[k].0.value() by {
            lemma_carry_price_value(levels@, level_totals(s@)[k].0);
        }
    }
    out
}

impl OrderBook {
    /// Re-derives the level prices from the queues (see `relevel`).
    fn relevel_levels(&mut self)
        requires
            book_wf(old(self)@),
        ensures
            final(self)@ == old(self)@,
            final(self).spec_symbol() == old(self).spec_symbol(),
            final(self).meta() == ({
                let l = relevel(old(self).meta(), old(self)@);
                (l.0, l.1, old(self).meta().2)
            }),
            levels_match(final(self)@.0, final(self).meta().0),
            levels_match(final(self)@.1, final(self).meta().1),
    {
        proof {
            assert forall|i: int| 0 <= i < self.bids@.len() implies (#[trigger] self.bids@[i]).price is Some by {
                assert(resting_ok(self@.0[i], Side::Bid));
            }
            assert forall|i: int| 0 <= i < self.asks@.len() implies (#[trigger] self.asks@[i]).price is Some by {
                assert(resting_ok(self@.1[i], Side::Ask));
            }
        }
        let nb = carry_levels_exec(&self.bid_levels, &self.bids);
        let na = carry_levels_exec(&self.ask_levels, &self.asks);
        self.bid_levels = nb;
        self.ask_levels = na;
    }

    /// Insert a resting limit order and run matching.
    /// Returns any trades that result plus the (possibly modified) order.
    pub fn add_limit_order(&mut self, order: Order) -> (r: MatchResult)
        requires
            old(self).wf(),
            order.price is Some,
        ensures
            final(self).wf(),
            final(self).spec_symbol() == old(self).spec_symbol(),
            ({
                let s = limit_spec(old(self)@, order);
                &&& r.trades@ == s.0
                &&& r.remaining == s.1
                &&& final(self)@ == s.2
            }),
            final(self).meta() == limit_meta(old(self)@, old(self).meta(), order),
            old(self).indexed() && !is_resting(old(self)@, order.id) ==> final(self).indexed(),
    {
        broadcast use vstd::std_specs::hash::group_hash_axioms;

        proof {
            law_limit_order_keeps_book_uncrossed(old(self)@, order);
            if old(self).indexed() && !is_resting(old(self)@, order.id) {
                law_limit_order_keeps_index(old(self)@, old(self).meta(), order);
            }
        }
        let mut order = order;
        let mut trades: Vec<Trade> = Vec::new();
        let ghost t0 = trades@;
        let inc = match order.side {
            Side::Bid => match_incoming(&mut self.asks, &order, order.price, &mut trades, &mut self.index),
            Side::Ask => match_incoming(&mut self.bids, &order, order.price, &mut trades, &mut self.index),
        };
        proof {
            assert(trades@ =~= t0 + trades@);
        }
        let result = if inc.is_positive() {
            let p = order.price.unwrap();
            proof {
                use_type_invariant(&p);
                use_type_invariant(&inc);
            }
            order.remaining = inc;
            let rested = order.duplicate();
            match order.side {
                Side::Bid => insert_resting_exec(&mut self.bids, Side::Bid, rested),
                Side::Ask => insert_resting_exec(&mut self.asks, Side::Ask, rested),
            }
            self.index.insert(order.id, (order.side, p));
            MatchResult { trades, remaining: Some(order) }
        } else {
            MatchResult { trades, remaining: None }
        };
        self.relevel_levels();
        result
    }

    /// Execute a market order against the book immediately.
    /// Returns trades. A partially filled market order that exhausted the book
    /// is represented as trades with the order's `remaining` set to the leftover.
    pub fn add_market_order(&mut self, order: Order) -> (r: MatchResult)
        requires
            old(self).wf(),
        ensures
            final(self).wf(),
            final(self).spec_symbol() == old(self).spec_symbol(),
            ({
                let s = market_spec(old(self)@, order);
                &&& r.trades@ == s.0
                &&& r.remaining == s.1
                &&& final(self)@ == s.2
            }),
            final(self).meta() == market_meta(old(self)@, old(self).meta(), order),
            old(self).indexed() ==> final(self).indexed(),
    {
        proof {
            law_market_order_keeps_book_uncrossed(old(self)@, order);
            if old(self).indexed() {
                law_market_order_keeps_index(old(self)@, old(self).meta(), order);
            }
        }
        let mut order = order;
        let mut trades: Vec<Trade> = Vec::new();
        let ghost t0 = trades@;
        let inc = match order.side {
            Side::Bid => match_incoming(&mut self.asks, &order, None, &mut trades, &mut self.index),
            Side::Ask => match_incoming(&mut self.bids, &order, None, &mut trades, &mut self.index),
        };
        proof {
            assert(trades@ =~= t0 + trades@);
        }
        order.remaining = inc;
        self.relevel_levels();
        if inc.is_positive() {
            MatchResult { trades, remaining: Some(order) }
        } else {
            MatchResult { trades, remaining: None }
        }
    }
}

/// A copy of a queue.
fn copy_orders(s: &Vec<Order>) -> (r: Vec<Order>)
    ensures
        r@ == s@,
{
    let mut out: Vec<Order> = Vec::new();
    let mut i: usize = 0;
    while i < s.len()
        invariant
            0 <= i <= s@.len(),
            out@ == s@.take(i as int),
        decreases s@.len() - i,
    {
        out.push(s[i].duplicate());
        proof {
            assert(out@ =~= s@.take(i as int + 1));
        }
        i = i + 1;
    }
    proof {
        assert(s@.take(s@.len() as int) =~= s@);
    }
    out
}

impl OrderBook {
    /// The trades a market order would make against this book; the book is
    /// left as it is.
    pub(crate) fn preview_market_trades(&self, order: &Order) -> (r: Vec<Trade>)
        requires
            self.wf(),
        ensures
            r@ == market_spec(self@, *order).0,
    {
        let mut opp = match order.side {
            Side::Bid => copy_orders(&self.asks),
            Side::Ask => copy_orders(&self.bids),
        };
        let mut trades: Vec<Trade> = Vec::new();
        let mut scratch: HashMap<OrderId, (Side, Price)> = HashMap::new();
        let ghost t0 = trades@;
        match_incoming(&mut opp, order, None, &mut trades, &mut scratch);
        proof {
            assert(trades@ =~= t0 + trades@);
        }
        trades
    }
}

/// Removing an order keeps a queue well formed.
pub proof fn lemma_remove_keeps_wf(s: Seq<Order>, side: Side, i: int)
    requires
        side_wf(s, side),
        0 <= i < s.len(),
    ensures
        side_wf(s.remove(i), side),
{
    let r = s.remove(i);
    assert forall|a: int| 0 <= a < r.len() implies resting_ok(#[trigger] r[a], side) by {
        if a < i {
            assert(r[a] == s[a]);
        } else {
            assert(r[a] == s[a + 1]);
        }
    }
    assert forall|a: int, b: int| 0 <= a < b < r.len() implies at_least_as_good(
        side,
        #[trigger] r[a],
        #[trigger] r[b],
    ) by {
        let a2 = if a < i {
            a
        } else {
            a + 1
        };
        let b2 = if b < i {
            b
        } else {
            b + 1
        };
        assert(r[a] == s[a2] && r[b] == s[b2]);
        assert(at_least_as_good(side, s[a2], s[b2]));
    }
}

/// The first position of an order `id` priced at the value of `p`, if any.
fn find_first_id_at(s: &Vec<Order>, id: OrderId, p: Price) -> (r: Option<usize>)
    requires
        forall|i: int| 0 <= i < s@.len() ==> (#[trigger] s@[i]).price is Some,
    ensures
        r matches Some(i) ==> is_first_with_id_at(s@, id, p.value(), i as int),
        r is None ==> !exists|i: int| is_first_with_id_at(s@, id, p.value(), i),
{
    let mut i: usize = 0;
    while i < s.len()
        invariant
            0 <= i <= s@.len(),
            forall|k: int| 0 <= k < s@.len() ==> (#[trigger] s@[k]).price is Some,
            forall|j: int| 0 <= j < i ==> !((#[trigger] s@[j]).id == id && price_value(s@[j]) == p.value()),
        decreases s@.len() - i,
    {
        if s[i].id == id && s[i].price.unwrap() == p {
            return Some(i);
        }
        i = i + 1;
    }
    proof {
        if exists|k: int| is_first_with_id_at(s@, id, p.value(), k) {
            let k = choose|k: int| is_first_with_id_at(s@, id, p.value(), k);
            assert(!(s@[k].id == id && price_value(s@[k]) == p.value()));
        }
    }
    None
}

pub proof fn lemma_first_with_id_at_unique(s: Seq<Order>, id: OrderId, v: int, i: int, j: int)
    requires
        is_first_with_id_at(s, id, v, i),
        is_first_with_id_at(s, id, v, j),
    ensures
        i == j,
{
    if i < j {
        assert(!(s[i].id == id && price_value(s[i]) == v));
    } else if j < i {
        assert(!(s[j].id == id && price_value(s[j]) == v));
    }
}

/// The price levels of a queue (see `level_totals`).
fn level_totals_exec(s: &Vec<Order>) -> (r: Vec<(Price, Quantity)>)
    requires
        forall|i: int| 0 <= i < s@.len() ==> (#[trigger] s@[i]).price is Some,
    ensures
        r@ == level_totals(s@),
        (forall|i: int| 0 <= i < s@.len() ==> (#[trigger] s@[i]).remaining.value() > 0) ==> forall|k: int|
            0 <= k < r@.len() ==> (#[trigger] r@[k]).1.value() > 0,
{
    let ghost all_pos = forall|i: int| 0 <= i < s@.len() ==> (#[trigger] s@[i]).remaining.value() > 0;
    let mut out: Vec<(Price, Quantity)> = Vec::new();
    let mut i: usize = 0;
    proof {
        assert(s@.take(0) =~= Seq::<Order>::empty());
    }
    while i < s.len()
        invariant
            0 <= i <= s@.len(),
            forall|k: int| 0 <= k < s@.len() ==> (#[trigger] s@[k]).price is Some,
            out@ == level_totals(s@.take(i as int)),
            all_pos == forall|i: int| 0 <= i < s@.len() ==> (#[trigger] s@[i]).remaining.value() > 0,
            all_pos ==> forall|k: int| 0 <= k < out@.len() ==> (#[trigger] out@[k]).1.value() > 0,
        decreases s@.len() - i,
    {
        let ghost out0 = out@;
        let ghost prefix = s@.take(i as int + 1);
        proof {
            assert(prefix.drop_last() =~= s@.take(i as int));
            assert(prefix.last() == s@[i as int]);
        }
        let p = s[i].price.unwrap();
        let q = s[i].remaining;
        let n = out.len();
        if n > 0 && out[n - 1].0 == p {
            let (lp, lt) = out[n - 1];
            let nt = lt.plus(q);
            out.set(n - 1, (lp, nt));
            proof {
                if all_pos {
                    assert(s@[i as int].remaining.value() > 0);
                    assert(out0[n - 1].1.value() > 0);
                    assert forall|k: int| 0 <= k < out@.len() implies (#[trigger] out@[k]).1.value() > 0 by {
                        if k != n - 1 {
                            assert(out@[k] == out0[k]);
                        }
                    }
                }
            }
        } else {
            let z = Amount::zero();
            proof {
                Amount::lemma_from_view(z);
            }
            let nt = z.plus(q);
            out.push((p, nt));
            proof {
                if all_pos {
                    assert(s@[i as int].remaining.value() > 0);
                    assert forall|k: int| 0 <= k < out@.len() implies (#[trigger] out@[k]).1.value() > 0 by {
                        if k < n {
                            assert(out@[k] == out0[k]);
                        }
                    }
                }
            }
        }
        i = i + 1;
    }
    proof {
        assert(s@.take(s@.len() as int) =~= s@);
    }
    out
}

/// The (price, total) pairs of a queue whose levels opened at `levels`.
fn level_view_exec(levels: &Vec<Price>, s: &Vec<Order>) -> (r: Vec<(Price, Quantity)>)
    requires
        forall|i: int| 0 <= i < s@.len() ==> (#[trigger] s@[i]).price is Some,
        forall|i: int| 0 <= i < s@.len() ==> (#[trigger] s@[i]).remaining.value() > 0,
        levels_match(s@, levels@),
    ensures
        r@ == level_view(levels@, s@),
        forall|k: int| 0 <= k < r@.len() ==> (#[trigger] r@[k]).1.value() > 0,
{
    let t = level_totals_exec(s);
    let mut out: Vec<(Price, Quantity)> = Vec::new();
    let mut k: usize = 0;
    while k < t.len()
        invariant
            0 <= k <= t@.len(),
            t@ == level_totals(s@),
            levels@.len() == t@.len(),
            forall|i: int| 0 <= i < t@.len() ==> (#[trigger] t@[i]).1.value() > 0,
            out@ == level_view(levels@, s@).take(k as int),
        decreases t@.len() - k,
    {
        out.push((levels[k], t[k].1));
        proof {
            assert(out@ =~= level_view(levels@, s@).take(k as int + 1));
        }
        k = k + 1;
    }
    proof {
        let v = level_view(levels@, s@);
        assert(v.take(v.len() as int) =~= v);
        assert forall|k: int| 0 <= k < out@.len() implies (#[trigger] out@[k]).1.value() > 0 by {
            assert(out@[k].1 == t@[k].1);
        }
    }
    out
}

impl OrderBook {
    /// Remove a resting order by ID. Returns the cancelled order, or None if
    /// the order was already filled or never existed. The index says where
    /// the order rests (its side and price); the id leaves the index.
    pub fn cancel_order(&mut self, id: OrderId) -> (r: Option<Order>)
        requires
            old(self).wf(),
        ensures
            final(self).wf(),
            final(self).spec_symbol() == old(self).spec_symbol(),
            ({
                let c = cancel_spec(old(self)@, old(self).meta().2.get(id), id);
                &&& r == c.0
                &&& final(self)@ == c.1
            }),
            final(self).meta() == cancel_meta(old(self)@, old(self).meta(), id),
            old(self).indexed() ==> {
                &&& final(self).indexed()
                &&& forall|i: int|
                    0 <= i < old(self)@.0.len() && (#[trigger] old(self)@.0[i]).id == id ==> r == Some(old(self)@.0[i])
                        && final(self)@ == (old(self)@.0.remove(i), old(self)@.1)
                &&& forall|i: int|
                    0 <= i < old(self)@.1.len() && (#[trigger] old(self)@.1[i]).id == id ==> r == Some(old(self)@.1[i])
                        && final(self)@ == (old(self)@.0, old(self)@.1.remove(i))
                &&& !is_resting(old(self)@, id) ==> r is None && final(self)@ == old(self)@
            },
    {
        broadcast use vstd::std_specs::hash::group_hash_axioms;

        proof {
            if old(self).indexed() {
                law_cancel_by_id(old(self)@, old(self).meta(), id);
            }
            law_cancel_keeps_book_uncrossed(self@, self.meta().2.get(id), id);
            assert forall|i: int| 0 <= i < self.bids@.len() implies (#[trigger] self.bids@[i]).price is Some by {
                assert(resting_ok(self@.0[i], Side::Bid));
            }
            assert forall|i: int| 0 <= i < self.asks@.len() implies (#[trigger] self.asks@[i]).price is Some by {
                assert(resting_ok(self@.1[i], Side::Ask));
            }
        }
        let entry = match self.index.get(&id) {
            Some(e) => Some(*e),
            None => None,
        };
        assert(entry == old(self).meta().2.get(id));
        let r = match entry {
            None => None,
            Some((side, p)) => match side {
                Side::Bid => match find_first_id_at(&self.bids, id, p) {
                    Some(i) => {
                        proof {
                            let c = choose|c: int| is_first_with_id_at(self.bids@, id, p.value(), c);
                            lemma_first_with_id_at_unique(self.bids@, id, p.value(), c, i as int);
                            lemma_remove_keeps_wf(self.bids@, Side::Bid, i as int);
                        }
                        let o = self.bids.remove(i);
                        Some(o)
                    },
                    None => None,
                },
                Side::Ask => match find_first_id_at(&self.asks, id, p) {
                    Some(i) => {
                        proof {
                            let c = choose|c: int| is_first_with_id_at(self.asks@, id, p.value(), c);
                            lemma_first_with_id_at_unique(self.asks@, id, p.value(), c, i as int);
                            lemma_remove_keeps_wf(self.asks@, Side::Ask, i as int);
                        }
                        let o = self.asks.remove(i);
                        Some(o)
                    },
                    None => None,
                },
            },
        };
        self.index.remove(&id);
        self.relevel_levels();
        r
    }

    /// Depth snapshot: the top `levels` price levels on each side.
    /// Each entry is (price, total_quantity_at_that_level): the price the
    /// level opened at and the sum of its remaining quantities; every total
    /// is positive.
    pub fn depth(&self, levels: usize) -> (r: Depth)
        requires
            self.wf(),
        ensures
            r.asks@ == top_levels(self.meta().1, self@.1, levels as int),
            r.bids@ == top_levels(self.meta().0, self@.0, levels as int),
            forall|k: int| 0 <= k < r.asks@.len() ==> (#[trigger] r.asks@[k]).1.value() > 0,
            forall|k: int| 0 <= k < r.bids@.len() ==> (#[trigger] r.bids@[k]).1.value() > 0,
            r.asks@.len() == (if (levels as int) < level_totals(self@.1).len() {
                levels as int
            } else {
                level_totals(self@.1).len() as int
            }),
            r.bids@.len() == (if (levels as int) < level_totals(self@.0).len() {
                levels as int
            } else {
                level_totals(self@.0).len() as int
            }),
            forall|i: int, j: int|
                0 <= i < j < r.asks@.len() ==> (#[trigger] r.asks@[i]).0.value() < (#[trigger] r.asks@[j]).0.value(),
            forall|i: int, j: int|
                0 <= i < j < r.bids@.len() ==> (#[trigger] r.bids@[i]).0.value() > (#[trigger] r.bids@[j]).0.value(),
            r.asks@.len() > 0 ==> best_level(self.meta().1) == Some(r.asks@[0].0),
            r.bids@.len() > 0 ==> best_level(self.meta().0) == Some(r.bids@[0].0),
    {
        proof {
            crate::book_laws::law_levels_strictly_ordered(self@.1, Side::Ask);
            crate::book_laws::law_levels_strictly_ordered(self@.0, Side::Bid);
            assert forall|i: int| 0 <= i < self@.1.len() implies (#[trigger] self@.1[i]).remaining.value() > 0
                && self@.1[i].price is Some by {
                assert(resting_ok(self@.1[i], Side::Ask));
            }
            assert forall|i: int| 0 <= i < self@.0.len() implies (#[trigger] self@.0[i]).remaining.value() > 0
                && self@.0[i].price is Some by {
                assert(resting_ok(self@.0[i], Side::Bid));
            }
        }
        let mut asks = level_view_exec(&self.ask_levels, &self.asks);
        let ghost a0 = asks@;
        asks.truncate(levels);
        proof {
            assert forall|k: int| 0 <= k < asks@.len() implies (#[trigger] asks@[k]).1.value() > 0 by {
                assert(asks@[k] == a0[k]);
            }
        }
        let mut bids = level_view_exec(&self.bid_levels, &self.bids);
        let ghost b0 = bids@;
        bids.truncate(levels);
        proof {
            assert forall|k: int| 0 <= k < bids@.len() implies (#[trigger] bids@[k]).1.value() > 0 by {
                assert(bids@[k] == b0[k]);
            }
        }
        Depth { bids: bids, asks: asks }
    }
}

} // verus!
