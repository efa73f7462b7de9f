//! Order entry: what the gateway does with a request once it has been read —
//! validation, the funds check, sequencing, and routing to the symbol's
//! book — and cancellation of a resting order, which releases its funds.
use vstd::prelude::*;
use std::collections::HashMap;
use crate::amount::Amount;
use crate::order::{Order, OrderId, OrderType, Side, Trade};
use crate::order_book::{cancel_meta, cancel_spec, limit_spec, market_spec, BookMeta, OrderBook};
use crate::risk::{funds_update, RiskEngine, RiskError, UserId};
use crate::risk::Side as FundsSide;
use crate::sequencer::{apply_meta, apply_spec, SequencedOrder, Sequencer};

verus! {

/// An order request, as read from the client.
/// `price` is optional — absent for market orders. A limit order needs one.
#[derive(Debug)]
pub struct PlaceOrderRequest {
    pub user_id: UserId,
    pub symbol: String,
    pub side: String,
    pub order_type: String,
    pub price: Option<Amount>,
    pub quantity: Amount,
}

/// The answer to an accepted order — the client tracks fills via this id.
#[derive(Debug)]
pub struct PlaceOrderResponse {
    pub order_id: OrderId,
}

#[derive(Debug)]
pub enum AppError {
    BadRequest(String),
    Risk(RiskError),
    NotFound,
}

/// What is remembered of an order resting in a book, to release its funds
/// when it is cancelled.
#[derive(Debug)]
pub struct OpenOrder {
    pub user_id: UserId,
    pub symbol: String,
    pub side: FundsSide,
    pub price: Amount,
    pub quantity: Amount,
}

/// The state the gateway shares between requests.
pub struct Exchange {
    pub risk: RiskEngine,
    pub sequencer: Sequencer,
    /// One book per symbol.
    pub books: Vec<OrderBook>,
    /// The resting orders that can be cancelled, by id.
    pub registry: HashMap<OrderId, OpenOrder>,
}

pub open spec fn parse_side(s: Seq<char>) -> Option<(Side, FundsSide)> {
    if s == "buy"@ {
        Some((Side::Bid, FundsSide::Buy))
    } else if s == "sell"@ {
        Some((Side::Ask, FundsSide::Sell))
    } else {
        None
    }
}

pub open spec fn parse_order_type(s: Seq<char>) -> Option<OrderType> {
    if s == "limit"@ {
        Some(OrderType::Limit)
    } else if s == "market"@ {
        Some(OrderType::Market)
    } else {
        None
    }
}

pub open spec fn is_book_for(books: Seq<OrderBook>, symbol: Seq<char>, i: int) -> bool {
    0 <= i < books.len() && books[i].spec_symbol()@ == symbol
}

pub open spec fn has_book(books: Seq<OrderBook>, symbol: Seq<char>) -> bool {
    exists|i: int| is_book_for(books, symbol, i)
}

/// The book of `symbol`; a symbol without a book has an empty one.
pub open spec fn book_state(books: Seq<OrderBook>, symbol: Seq<char>) -> (Seq<Order>, Seq<Order>) {
    if has_book(books, symbol) {
        books[choose|i: int| is_book_for(books, symbol, i)]@
    } else {
        (Seq::empty(), Seq::empty())
    }
}

/// What the book of `symbol` keeps beside its queues; a symbol without a
/// book has nothing kept.
pub open spec fn book_meta(books: Seq<OrderBook>, symbol: Seq<char>) -> BookMeta {
    if has_book(books, symbol) {
        books[choose|i: int| is_book_for(books, symbol, i)].meta()
    } else {
        (Seq::empty(), Seq::empty(), Map::empty())
    }
}

/// Every book is well formed, and no two books trade the same symbol.
pub open spec fn books_wf(books: Seq<OrderBook>) -> bool {
    &&& forall|i: int| 0 <= i < books.len() ==> (#[trigger] books[i]).wf()
    &&& forall|i: int, j: int|
        0 <= i < j < books.len() ==> (#[trigger] books[i]).spec_symbol()@ != (#[trigger] books[j]).spec_symbol()@
}

/// `new` holds the same books as `old`, but for `symbol`, whose book now
/// has queues `b` and keeps `bm`.
pub open spec fn books_updated(
    old_b: Seq<OrderBook>,
    new_b: Seq<OrderBook>,
    symbol: Seq<char>,
    b: (Seq<Order>, Seq<Order>),
    bm: BookMeta,
    created: bool,
) -> bool {
    &&& forall|s: Seq<char>| s != symbol ==> has_book(new_b, s) == has_book(old_b, s)
    &&& forall|s: Seq<char>| s != symbol ==> book_state(new_b, s) == book_state(old_b, s)
    &&& forall|s: Seq<char>| s != symbol ==> book_meta(new_b, s) == book_meta(old_b, s)
    &&& has_book(new_b, symbol) == (has_book(old_b, symbol) || created)
    &&& book_state(new_b, symbol) == b
    &&& book_meta(new_b, symbol) == bm
}

/// Nothing changed.
pub open spec fn unchanged(old: &Exchange, new: &Exchange) -> bool {
    &&& new.risk@ == old.risk@
    &&& new.sequencer.log@ == old.sequencer.log@
    &&& new.sequencer.next_id() == old.sequencer.next_id()
    &&& new.books@ == old.books@
    &&& new.registry@ == old.registry@
}

/// The result of the funds check, read off the outcome of an order.
pub open spec fn funds_result<T>(r: Result<T, AppError>) -> Result<(), RiskError> {
    match r {
        Err(AppError::Risk(e)) => Err(e),
        _ => Ok(()),
    }
}

/// The order built from an accepted request, before it is sequenced.
pub open spec fn request_order(req: PlaceOrderRequest, id: OrderId, side: Side, order_type: OrderType) -> Order {
    Order {
        id: id,
        symbol: req.symbol,
        side: side,
        order_type: order_type,
        price: req.price,
        quantity: req.quantity,
        remaining: req.quantity,
        sequence_id: 0,
        timestamp_us: 0,
    }
}

/// What trades cost: the sum of price times quantity over the trades, in
/// order, starting from zero.
pub open spec fn trades_cost(ts: Seq<Trade>) -> Amount
    decreases ts.len(),
{
    if ts.len() == 0 {
        Amount::from_parts((0, 0))
    } else {
        Amount::spec_add(trades_cost(ts.drop_last()), Amount::spec_mul(ts.last().price, ts.last().quantity))
    }
}

/// The (price, quantity) whose funds the order needs locked, or `None` for
/// a limit order without a price:
/// - with a price: the price and the quantity (a buy locks their product in
///   cash, a sell locks the quantity of stock);
/// - a market buy without a price: the cost of the trades it would make
///   against the asks of its symbol's book, once;
/// - a market sell without a price: the quantity of stock (a sell's lock
///   does not depend on the price; zero is passed).
pub open spec fn lock_terms(
    books: Seq<OrderBook>,
    req: PlaceOrderRequest,
    id: OrderId,
    funds_side: FundsSide,
    order_type: OrderType,
) -> Option<(Amount, Amount)> {
    match req.price {
        Some(p) => Some((p, req.quantity)),
        None => match order_type {
            OrderType::Limit => None,
            OrderType::Market => match funds_side {
                FundsSide::Buy => Some(
                    (
                        trades_cost(
                            market_spec(
                                book_state(books, req.symbol@),
                                request_order(req, id, Side::Bid, OrderType::Market),
                            ).0,
                        ),
                        Amount::from_parts((1, 0)),
                    ),
                ),
                FundsSide::Sell => Some((Amount::from_parts((0, 0)), req.quantity)),
            },
        },
    }
}

/// What placing `req` under id `id` does: a malformed request (side, order
/// type, a limit order without a price) is refused with a message and
/// changes nothing; a request the funds check refuses changes nothing but is
/// answered with the risk error; otherwise the funds are locked (see
/// `lock_terms`), the order is sequenced, fed to the book of its symbol
/// (created when missing), and remembered for cancellation when it comes to
/// rest.
pub open spec fn placement(
    old: &Exchange,
    new: &Exchange,
    req: PlaceOrderRequest,
    id: OrderId,
    r: Result<OrderId, AppError>,
) -> bool {
    match parse_side(req.side@) {
        None => (r matches Err(AppError::BadRequest(m)) && m@ == "invalid side: "@ + req.side@) && unchanged(old, new),
        Some((book_side, funds_side)) => match parse_order_type(req.order_type@) {
            None => (r matches Err(AppError::BadRequest(m)) && m@ == "invalid order_type: "@ + req.order_type@)
                && unchanged(old, new),
            Some(order_type) => match lock_terms(old.books@, req, id, funds_side, order_type) {
                None => (r matches Err(AppError::BadRequest(m)) && m@ == "limit order requires a price"@)
                    && unchanged(old, new),
                Some((lock_price, lock_qty)) => {
                    let fr = funds_result(r);
                    &&& funds_update(
                        old.risk@,
                        new.risk@,
                        req.user_id,
                        req.symbol@,
                        funds_side,
                        lock_price,
                        lock_qty,
                        false,
                        fr,
                    )
                    &&& fr is Err ==> {
                        &&& new.sequencer.log@ == old.sequencer.log@
                        &&& new.sequencer.next_id() == old.sequencer.next_id()
                        &&& new.books@ == old.books@
                        &&& new.registry@ == old.registry@
                    }
                    &&& fr is Ok ==> {
                        let next = old.sequencer.next_id();
                        let order = Order { sequence_id: next, ..request_order(req, id, book_side, order_type) };
                        let before = book_state(old.books@, req.symbol@);
                        let rests = order_type == OrderType::Limit && limit_spec(before, order).1 is Some;
                        &&& r == Ok::<OrderId, AppError>(id)
                        &&& new.sequencer.next_id() == next + 1
                        &&& new.sequencer.log@ == old.sequencer.log@.push(
                            SequencedOrder { sequence_id: next, order },
                        )
                        &&& books_updated(
                            old.books@,
                            new.books@,
                            req.symbol@,
                            apply_spec(before, order),
                            apply_meta(before, book_meta(old.books@, req.symbol@), order),
                            true,
                        )
                        &&& new.registry@ == if rests {
                            old.registry@.insert(
                                id,
                                OpenOrder {
                                    user_id: req.user_id,
                                    symbol: req.symbol,
                                    side: funds_side,
                                    price: lock_price,
                                    quantity: req.quantity,
                                },
                            )
                        } else {
                            old.registry@
                        }
                    }
                },
            },
        },
    }
}

/// What cancelling order `id` does: an id that is not remembered is not
/// found and changes nothing; otherwise it is forgotten and taken out of its
/// book — not found if it is no longer there (filled) — and the funds it
/// held are released for its unfilled quantity.
pub open spec fn cancellation(old: &Exchange, new: &Exchange, id: OrderId, r: Result<(), AppError>) -> bool {
    if !old.registry@.contains_key(id) {
        r matches Err(AppError::NotFound) && unchanged(old, new)
    } else {
        let open = old.registry@[id];
        let before = book_state(old.books@, open.symbol@);
        let meta = book_meta(old.books@, open.symbol@);
        let c = cancel_spec(before, meta.2.get(id), id);
        &&& new.registry@ == old.registry@.remove(id)
        &&& new.sequencer.log@ == old.sequencer.log@
        &&& new.sequencer.next_id() == old.sequencer.next_id()
        &&& books_updated(old.books@, new.books@, open.symbol@, c.1, cancel_meta(before, meta, id), false)
        &&& match c.0 {
            None => r matches Err(AppError::NotFound) && new.risk@ == old.risk@,
            Some(o) => {
                &&& funds_update(old.risk@, new.risk@, open.user_id, open.symbol@, open.side, open.price, o.remaining, true, funds_result(r))
                &&& funds_result(r) is Ok ==> r is Ok
            },
        }
    }
}

proof fn lemma_book_for_unique(books: Seq<OrderBook>, symbol: Seq<char>, i: int)
    requires
        books_wf(books),
        is_book_for(books, symbol, i),
    ensures
        has_book(books, symbol),
        (choose|j: int| is_book_for(books, symbol, j)) == i,
        book_state(books, symbol) == books[i]@,
        book_meta(books, symbol) == books[i].meta(),
{
    let j = choose|j: int| is_book_for(books, symbol, j);
    if j < i {
        assert(books[j].spec_symbol()@ != books[i].spec_symbol()@);
    } else if i < j {
        assert(books[i].spec_symbol()@ != books[j].spec_symbol()@);
    }
}

/// Replacing the book at `i` by one of the same symbol changes only that
/// symbol's book.
proof fn lemma_books_update(books: Seq<OrderBook>, i: int, b: OrderBook)
    requires
        books_wf(books),
        0 <= i < books.len(),
        b.spec_symbol() == books[i].spec_symbol(),
        b.wf(),
    ensures
        books_wf(books.update(i, b)),
        books_updated(books, books.update(i, b), b.spec_symbol()@, b@, b.meta(), false),
{
    let nb = books.update(i, b);
    let sym = b.spec_symbol()@;
    assert forall|x: int, y: int| 0 <= x < y < nb.len() implies (#[trigger] nb[x]).spec_symbol()@ != (
    #[trigger] nb[y]).spec_symbol()@ by {
        assert(books[x].spec_symbol()@ != books[y].spec_symbol()@);
    }
    assert(is_book_for(nb, sym, i));
    lemma_book_for_unique(nb, sym, i);
    assert forall|s: Seq<char>| s != sym implies has_book(nb, s) == has_book(books, s) && book_state(nb, s)
        == book_state(books, s) && book_meta(nb, s) == book_meta(books, s) by {
        if has_book(books, s) {
            let j = choose|j: int| is_book_for(books, s, j);
            assert(j != i);
            assert(is_book_for(nb, s, j));
            lemma_book_for_unique(nb, s, j);
        }
        if has_book(nb, s) {
            let j = choose|j: int| is_book_for(nb, s, j);
            assert(j != i);
            assert(is_book_for(books, s, j));
        }
    }
    assert(is_book_for(books, sym, i));
    lemma_book_for_unique(books, sym, i);
}

/// The position of the book of `symbol`, if there is one.
fn find_book(books: &Vec<OrderBook>, symbol: &String) -> (r: Option<usize>)
    requires
        books_wf(books@),
    ensures
        r matches Some(i) ==> is_book_for(books@, symbol@, i as int) && book_state(books@, symbol@)
            == books@[i as int]@ && book_meta(books@, symbol@) == books@[i as int].meta(),
        r is None ==> !has_book(books@, symbol@),
{
    let mut i: usize = 0;
    while i < books.len()
        invariant
            0 <= i <= books@.len(),
            books_wf(books@),
            forall|j: int| 0 <= j < i ==> (#[trigger] books@[j]).spec_symbol()@ != symbol@,
        decreases books@.len() - i,
    {
        if *books[i].symbol_name() == *symbol {
            proof {
                lemma_book_for_unique(books@, symbol@, i as int);
            }
            return Some(i);
        }
        i = i + 1;
    }
    proof {
        if has_book(books@, symbol@) {
            let k = choose|k: int| is_book_for(books@, symbol@, k);
            assert(books@[k].spec_symbol()@ != symbol@);
        }
    }
    None
}

/// `"prefix" + s`.
fn message(prefix: &str, s: &String) -> (r: String)
    ensures
        r@ == prefix@ + s@,
{
    let mut m = prefix.to_owned();
    m.append(s.as_str());
    m
}

/// `uuid::Uuid::new_v4`, read as its 128 bits. The id is random: nothing
/// is claimed of it.
#[verifier::external_body]
fn new_order_id() -> (r: OrderId) {
    uuid::Uuid::new_v4().as_u128()
}

/// What the trades cost (see `trades_cost`).
fn trades_cost_exec(ts: &Vec<Trade>) -> (r: Amount)
    ensures
        r == trades_cost(ts@),
{
    let mut acc = Amount::zero();
    proof {
        Amount::lemma_from_view(acc);
        assert(ts@.take(0) =~= Seq::<Trade>::empty());
    }
    let mut i: usize = 0;
    while i < ts.len()
        invariant
            0 <= i <= ts@.len(),
            acc == trades_cost(ts@.take(i as int)),
        decreases ts@.len() - i,
    {
        proof {
            assert(ts@.take(i as int + 1).drop_last() =~= ts@.take(i as int));
            assert(ts@.take(i as int + 1).last() == ts@[i as int]);
        }
        let t = &ts[i];
        acc = acc.plus(t.price.times(t.quantity));
        i = i + 1;
    }
    proof {
        assert(ts@.take(ts@.len() as int) =~= ts@);
    }
    acc
}

impl From<RiskError> for AppError {
    fn from(value: RiskError) -> (r: AppError) {
        AppError::Risk(value)
    }
}

impl vstd::std_specs::convert::FromSpecImpl<RiskError> for AppError {
    open spec fn obeys_from_spec() -> bool {
        true
    }

    open spec fn from_spec(v: RiskError) -> AppError {
        AppError::Risk(v)
    }
}

/// Status of an accepted order.
pub const STATUS_ACCEPTED: u16 = 202u16;

/// Status of a completed cancellation.
pub const STATUS_OK: u16 = 200u16;

impl AppError {
    /// The HTTP status the gateway answers the error with.
    pub fn status(&self) -> (r: u16)
        ensures
            r == (match self {
                AppError::BadRequest(_) => 422u16,
                AppError::Risk(_) => 400u16,
                AppError::NotFound => 404u16,
            }),
    {
        match self {
            AppError::BadRequest(_) => 422,
            AppError::Risk(_) => 400,
            AppError::NotFound => 404,
        }
    }
}

impl Exchange {
    pub open spec fn wf(&self) -> bool {
        books_wf(self.books@)
    }

    pub fn new() -> (r: Exchange)
        ensures
            r.wf(),
            r.risk@ == Map::<UserId, crate::risk::Wallet>::empty(),
            r.sequencer.next_id() == 1,
            r.sequencer.log@ == Seq::<SequencedOrder>::empty(),
            r.books@ == Seq::<OrderBook>::empty(),
            r.registry@ == Map::<OrderId, OpenOrder>::empty(),
    {
        Exchange {
            risk: RiskEngine::new(),
            sequencer: Sequencer::new(),
            books: Vec::new(),
            registry: HashMap::new(),
        }
    }

    /// The book of `symbol`, if one was opened.
    pub fn book(&self, symbol: &str) -> (r: Option<&OrderBook>)
        requires
            self.wf(),
        ensures
            r matches Some(b) ==> has_book(self.books@, symbol@) && b@ == book_state(self.books@, symbol@)
                && b.meta() == book_meta(self.books@, symbol@) && b.wf(),
            r is None ==> !has_book(self.books@, symbol@),
    {
        let key = symbol.to_owned();
        match find_book(&self.books, &key) {
            Some(i) => Some(&self.books[i]),
            None => None,
        }
    }

    /// What a market buy for `req` under id `id` would pay for the asks it
    /// takes now.
    fn market_buy_cost(&self, req: &PlaceOrderRequest, id: OrderId) -> (r: Amount)
        requires
            self.wf(),
        ensures
            r == trades_cost(
                market_spec(
                    book_state(self.books@, req.symbol@),
                    request_order(*req, id, Side::Bid, OrderType::Market),
                ).0,
            ),
    {
        let probe = Order {
            id: id,
            symbol: req.symbol.clone(),
            side: Side::Bid,
            order_type: OrderType::Market,
            price: req.price,
            quantity: req.quantity,
            remaining: req.quantity,
            sequence_id: 0,
            timestamp_us: 0,
        };
        match find_book(&self.books, &req.symbol) {
            Some(i) => {
                let ts = self.books[i].preview_market_trades(&probe);
                trades_cost_exec(&ts)
            },
            None => {
                let z = Amount::zero();
                proof {
                    Amount::lemma_from_view(z);
                    assert(market_spec(book_state(self.books@, req.symbol@), probe).0 =~= Seq::<Trade>::empty());
                }
                z
            },
        }
    }

    /// POST /orders — validate, check and lock the funds, sequence the
    /// order under a fresh random id, and feed it to its book.
    pub fn place_order(&mut self, req: PlaceOrderRequest) -> (r: Result<OrderId, AppError>)
        requires
            old(self).wf(),
            old(self).sequencer.next_id() < u64::MAX,
        ensures
            final(self).wf(),
            exists|id: OrderId| placement(old(self), final(self), req, id, r),
    {
        let id = new_order_id();
        self.place_order_with_id(req, id)
    }

    /// Placing an order under the given id (see `placement`).
    #[verifier::rlimit(40)]
    pub fn place_order_with_id(&mut self, req: PlaceOrderRequest, id: OrderId) -> (r: Result<OrderId, AppError>)
        requires
            old(self).wf(),
            old(self).sequencer.next_id() < u64::MAX,
        ensures
            final(self).wf(),
            placement(old(self), final(self), req, id, r),
    {
        broadcast use vstd::std_specs::hash::group_hash_axioms;

        let buy = "buy".to_owned();
        let sell = "sell".to_owned();
        let (book_side, funds_side) = if req.side == buy {
            (Side::Bid, FundsSide::Buy)
        } else if req.side == sell {
            (Side::Ask, FundsSide::Sell)
        } else {
            return Err(AppError::BadRequest(message("invalid side: ", &req.side)));
        };
        let limit = "limit".to_owned();
        let market = "market".to_owned();
        let order_type = if req.order_type == limit {
            OrderType::Limit
        } else if req.order_type == market {
            OrderType::Market
        } else {
            return Err(AppError::BadRequest(message("invalid order_type: ", &req.order_type)));
        };
        let terms = match req.price {
            Some(p) => Some((p, req.quantity)),
            None => match order_type {
                OrderType::Limit => None,
                OrderType::Market => match funds_side {
                    FundsSide::Buy => {
                        let cost = self.market_buy_cost(&req, id);
                        let one = Amount::from_int(1);
                        proof {
                            Amount::lemma_from_view(one);
                        }
                        Some((cost, one))
                    },
                    FundsSide::Sell => {
                        let z = Amount::zero();
                        proof {
                            Amount::lemma_from_view(z);
                        }
                        Some((z, req.quantity))
                    },
                },
            },
        };
        let (price, lock_qty) = match terms {
            Some(t) => t,
            None => {
                return Err(AppError::BadRequest("limit order requires a price".to_owned()));
            },
        };
        let locked = self.risk.check_and_lock(req.user_id, req.symbol.as_str(), funds_side, price, lock_qty);
        match locked {
            Err(e) => {
                return Err(AppError::from(e));
            },
            Ok(()) => {},
        }
        let symbol = req.symbol.clone();
        let order = Order {
            id: id,
            symbol: req.symbol.clone(),
            side: book_side,
            order_type: order_type,
            price: req.price,
            quantity: req.quantity,
            remaining: req.quantity,
            sequence_id: 0,
            timestamp_us: 0,
        };
        let sequenced = self.sequencer.sequence(order);
        let ghost books0 = self.books@;
        let i = match find_book(&self.books, &symbol) {
            Some(i) => i,
            None => {
                let b = OrderBook::new(symbol.as_str());
                self.books.push(b);
                proof {
                    let n = self.books@.len() - 1;
                    assert forall|x: int, y: int| 0 <= x < y < self.books@.len() implies (
                    #[trigger] self.books@[x]).spec_symbol()@ != (#[trigger] self.books@[y]).spec_symbol()@ by {
                        if y == n {
                            assert(!is_book_for(books0, symbol@, x));
                        } else {
                            assert(books0[x].spec_symbol()@ != books0[y].spec_symbol()@);
                        }
                    }
                    assert(is_book_for(self.books@, symbol@, n));
                    lemma_book_for_unique(self.books@, symbol@, n);
                    assert forall|s: Seq<char>| s != symbol@ implies has_book(self.books@, s) == has_book(books0, s)
                        && book_state(self.books@, s) == book_state(books0, s) && book_meta(self.books@, s)
                        == book_meta(books0, s) by {
                        if has_book(books0, s) {
                            let j = choose|j: int| is_book_for(books0, s, j);
                            assert(is_book_for(self.books@, s, j));
                            lemma_book_for_unique(self.books@, s, j);
                            lemma_book_for_unique(books0, s, j);
                        }
                        if has_book(self.books@, s) {
                            let j = choose|j: int| is_book_for(self.books@, s, j);
                            assert(j != n);
                            assert(is_book_for(books0, s, j));
                        }
                    }
                }
                self.books.len() - 1
            },
        };
        let ghost books1 = self.books@;
        let mut book = self.books.remove(i);
        let rests = match sequenced.order.order_type {
            OrderType::Limit => {
                let res = book.add_limit_order(sequenced.order);
                res.remaining.is_some()
            },
            OrderType::Market => {
                book.add_market_order(sequenced.order);
                false
            },
        };
        self.books.insert(i, book);
        proof {
            assert(self.books@ =~= books1.update(i as int, book));
            lemma_books_update(books1, i as int, book);
        }
        if rests {
            self.registry.insert(
                id,
                OpenOrder { user_id: req.user_id, symbol: symbol, side: funds_side, price: price, quantity: req.quantity },
            );
        }
        Ok(id)
    }

    /// DELETE /orders/:id — cancel a resting order, release its locked funds.
    pub fn cancel_order(&mut self, id: OrderId) -> (r: Result<(), AppError>)
        requires
            old(self).wf(),
        ensures
            final(self).wf(),
            cancellation(old(self), final(self), id, r),
    {
        broadcast use vstd::std_specs::hash::group_hash_axioms;

        match self.registry.remove(&id) {
            None => {
                proof {
                    assert(self.registry@ =~= old(self).registry@);
                }
                Err(AppError::NotFound)
            },
            Some(open) => match find_book(&self.books, &open.symbol) {
                None => {
                    proof {
                        let e = Seq::<Order>::empty();
                        assert(crate::order_book::carry_levels(Seq::empty(), e) =~= Seq::empty());
                        assert(Map::<OrderId, (Side, crate::order::Price)>::empty().remove(id) =~= Map::empty());
                    }
                    Err(AppError::NotFound)
                },
                Some(i) => {
                    let ghost books1 = self.books@;
                    let mut book = self.books.remove(i);
                    let cancelled = book.cancel_order(id);
                    self.books.insert(i, book);
                    proof {
                        assert(self.books@ =~= books1.update(i as int, book));
                        lemma_books_update(books1, i as int, book);
                    }
                    match cancelled {
                        None => Err(AppError::NotFound),
                        Some(order) => match self.risk.release(
                            open.user_id,
                            open.symbol.as_str(),
                            open.side,
                            open.price,
                            order.remaining,
                        ) {
                            Ok(()) => Ok(()),
                            Err(e) => Err(AppError::from(e)),
                        },
                    }
                },
            },
        }
    }
}

} // verus!
