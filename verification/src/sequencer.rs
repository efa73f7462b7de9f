//! The sequencer: assigns strictly increasing sequence IDs and keeps an
//! append-only log, from which the book can be rebuilt by replay.
use vstd::prelude::*;
use crate::order::{Order, OrderType};
use crate::order_book::{limit_meta, limit_spec, market_meta, market_spec, BookMeta, OrderBook};

verus! {

/// A single entry in the sequence log: an order that has been assigned a
/// global sequence ID and is ready to be fed into the matching engine.
#[derive(Clone, Debug)]
pub struct SequencedOrder {
    pub sequence_id: u64,
    pub order: Order,
}

/// Assigns strictly increasing sequence IDs to incoming orders and records
/// them in an append-only in-memory log.
pub struct Sequencer {
    /// The ID the next order will get.
    pub next_seq: u64,
    pub log: Vec<SequencedOrder>,
}

/// The entries' IDs strictly increase along the log, each entry's order
/// carries its entry's ID, and every ID is below `next`.
pub open spec fn log_ordered(log: Seq<SequencedOrder>, next: u64) -> bool {
    &&& forall|i: int, j: int|
        0 <= i < j < log.len() ==> (#[trigger] log[i]).sequence_id < (#[trigger] log[j]).sequence_id
    &&& forall|i: int|
        0 <= i < log.len() ==> {
            &&& (#[trigger] log[i]).sequence_id < next
            &&& log[i].order.sequence_id == log[i].sequence_id
        }
}

/// The log holds the IDs 1, 2, 3, ... in order, each entry's order carries
/// its entry's ID, and `next` is the ID after the last one.
pub open spec fn log_numbered(log: Seq<SequencedOrder>, next: u64) -> bool {
    &&& next == log.len() + 1
    &&& forall|i: int|
        0 <= i < log.len() ==> {
            &&& (#[trigger] log[i]).sequence_id == i + 1
            &&& log[i].order.sequence_id == i + 1
        }
}

/// The book after one order has been fed to it.
pub open spec fn apply_spec(book: (Seq<Order>, Seq<Order>), order: Order) -> (Seq<Order>, Seq<Order>) {
    match order.order_type {
        OrderType::Limit => limit_spec(book, order).2,
        OrderType::Market => market_spec(book, order).2,
    }
}

/// The book obtained by feeding the logged orders, in order, to an empty book.
pub open spec fn replay_spec(log: Seq<SequencedOrder>) -> (Seq<Order>, Seq<Order>)
    decreases log.len(),
{
    if log.len() == 0 {
        (Seq::empty(), Seq::empty())
    } else {
        apply_spec(replay_spec(log.drop_last()), log.last().order)
    }
}

/// What the book keeps beside its queues after one more order.
pub open spec fn apply_meta(book: (Seq<Order>, Seq<Order>), meta: BookMeta, order: Order) -> BookMeta {
    match order.order_type {
        OrderType::Limit => limit_meta(book, meta, order),
        OrderType::Market => market_meta(book, meta, order),
    }
}

/// What the book rebuilt from the log keeps beside its queues.
pub open spec fn replay_meta(log: Seq<SequencedOrder>) -> BookMeta
    decreases log.len(),
{
    if log.len() == 0 {
        (Seq::empty(), Seq::empty(), Map::empty())
    } else {
        apply_meta(replay_spec(log.drop_last()), replay_meta(log.drop_last()), log.last().order)
    }
}

/// Every limit order in the log has a price (the book needs one).
pub open spec fn log_replayable(log: Seq<SequencedOrder>) -> bool {
    forall|i: int|
        0 <= i < log.len() && (#[trigger] log[i]).order.order_type == OrderType::Limit
            ==> log[i].order.price is Some
}

impl SequencedOrder {
    pub fn duplicate(&self) -> (r: SequencedOrder)
        ensures
            r == *self,
    {
        SequencedOrder { sequence_id: self.sequence_id, order: self.order.duplicate() }
    }
}

impl Sequencer {
    /// The ID the next order will get.
    pub open spec fn next_id(&self) -> u64 {
        self.next_seq
    }

    /// The ID the next order will get.
    pub fn next_sequence_id(&self) -> (r: u64)
        ensures
            r == self.next_id(),
    {
        self.next_seq
    }

    pub fn new() -> (r: Sequencer)
        ensures
            r.next_id() == 1,
            r.log@ == Seq::<SequencedOrder>::empty(),
            log_ordered(r.log@, r.next_id()),
            log_numbered(r.log@, r.next_id()),
    {
        Sequencer { next_seq: 1, log: Vec::new() }
    }

    /// Assign the next sequence ID to `order`, append to log, return the entry.
    pub fn sequence(&mut self, order: Order) -> (r: SequencedOrder)
        requires
            old(self).next_id() < u64::MAX,
        ensures
            r.sequence_id == old(self).next_id(),
            r.order == (Order { sequence_id: old(self).next_id(), ..order }),
            final(self).next_id() == old(self).next_id() + 1,
            final(self).log@ == old(self).log@.push(r),
            final(self).log@.last() == r,
            log_numbered(old(self).log@, old(self).next_id()) ==> r.sequence_id == old(self).log@.len() + 1,
            log_ordered(old(self).log@, old(self).next_id()) ==> log_ordered(
                final(self).log@,
                final(self).next_id(),
            ),
            log_numbered(old(self).log@, old(self).next_id()) ==> log_numbered(
                final(self).log@,
                final(self).next_id(),
            ),
    {
        let mut order = order;
        order.sequence_id = self.next_seq;
        self.next_seq = self.next_seq + 1;
        let entry = SequencedOrder { sequence_id: order.sequence_id, order };
        let r = entry.duplicate();
        self.log.push(entry);
        r
    }
}

/// Replay the log into a fresh OrderBook and return it.
/// Identical log → identical book state, every time.
pub fn replay(log: &[SequencedOrder], symbol: &str) -> (r: OrderBook)
    requires
        log_replayable(log@),
    ensures
        r@ == replay_spec(log@),
        r.meta() == replay_meta(log@),
        r.wf(),
        r.spec_symbol()@ == symbol@,
{
    let mut book = OrderBook::new(symbol);
    let mut i: usize = 0;
    proof {
        assert(log@.take(0) =~= Seq::<SequencedOrder>::empty());
    }
    while i < log.len()
        invariant
            0 <= i <= log@.len(),
            log_replayable(log@),
            book.wf(),
            book.spec_symbol()@ == symbol@,
            book@ == replay_spec(log@.take(i as int)),
            book.meta() == replay_meta(log@.take(i as int)),
        decreases log@.len() - i,
    {
        proof {
            assert(log@.take(i as int + 1).drop_last() =~= log@.take(i as int));
            assert(log@.take(i as int + 1).last() == log@[i as int]);
        }
        let entry = &log[i];
        match entry.order.order_type {
            OrderType::Limit => {
                book.add_limit_order(entry.order.duplicate());
            },
            OrderType::Market => {
                book.add_market_order(entry.order.duplicate());
            },
        }
        i = i + 1;
    }
    proof {
        assert(log@.take(log@.len() as int) =~= log@);
    }
    book
}

/// Law: a log numbered from 1 has strictly increasing IDs.
pub proof fn law_numbered_log_is_ordered(log: Seq<SequencedOrder>, next: u64)
    requires
        log_numbered(log, next),
    ensures
        log_ordered(log, next),
{
}

/// Law: replay is deterministic — two books rebuilt from the same log are
/// in the same state.
pub proof fn law_replay_deterministic(log: Seq<SequencedOrder>, a: OrderBook, b: OrderBook)
    requires
        a@ == replay_spec(log),
        a.meta() == replay_meta(log),
        b@ == replay_spec(log),
        b.meta() == replay_meta(log),
    ensures
        a@ == b@,
        a.meta() == b.meta(),
{
}

/// Law: replaying a log that grew by one entry is replaying the old log and
/// then feeding the new entry's order — the live book and the replayed book
/// go through the same states.
pub proof fn law_replay_extends(log: Seq<SequencedOrder>, entry: SequencedOrder)
    ensures
        replay_spec(log.push(entry)) == apply_spec(replay_spec(log), entry.order),
        replay_meta(log.push(entry)) == apply_meta(replay_spec(log), replay_meta(log), entry.order),
{
    assert(log.push(entry).drop_last() =~= log);
}

/// Law: a book fed the log's orders by hand, from an empty book, is in the
/// replayed state after every step: the empty book is the replay of no
/// entries, and feeding entry `i` to the replay of the first `i` entries
/// gives the replay of the first `i + 1`. So after the whole log it is in
/// the state `replay` rebuilds, and answers every query alike.
pub proof fn law_feeding_follows_replay(log: Seq<SequencedOrder>, i: int)
    requires
        0 <= i < log.len(),
    ensures
        replay_spec(log.take(0)) == (Seq::<Order>::empty(), Seq::<Order>::empty()),
        replay_meta(log.take(0)) == (Seq::<crate::order::Price>::empty(), Seq::<crate::order::Price>::empty(), Map::<
            crate::order::OrderId,
            (crate::order::Side, crate::order::Price),
        >::empty()),
        replay_spec(log.take(i + 1)) == apply_spec(replay_spec(log.take(i)), log[i].order),
        replay_meta(log.take(i + 1)) == apply_meta(replay_spec(log.take(i)), replay_meta(log.take(i)), log[i].order),
        log.take(log.len() as int) == log,
{
    assert(log.take(0).len() == 0);
    assert(log.take(i + 1).drop_last() =~= log.take(i));
    assert(log.take(i + 1).last() == log[i]);
    assert(log.take(log.len() as int) =~= log);
}

} // verus!
