//! Orders, trades and the outcome of a submission.
use vstd::prelude::*;
use crate::amount::Amount;

verus! {

/// Identifies an order (the 128 bits of a UUID).
pub type OrderId = u128;

pub type Symbol = String;

pub type Price = Amount;

pub type Quantity = Amount;

#[derive(Clone, Copy, Debug, PartialEq, Eq, Structural)]
pub enum Side {
    Bid,
    Ask,
}

#[derive(Clone, Copy, Debug, PartialEq, Eq, Structural)]
pub enum OrderType {
    Limit,
    Market,
}

#[derive(Clone, Debug)]
pub struct Order {
    pub id: OrderId,
    pub symbol: Symbol,
    pub side: Side,
    pub order_type: OrderType,
    /// None for market orders
    pub price: Option<Price>,
    pub quantity: Quantity,
    pub remaining: Quantity,
    /// Monotonically increasing; set by the sequencer before the engine sees it
    pub sequence_id: u64,
    /// Microseconds since Unix epoch
    pub timestamp_us: u64,
}

#[derive(Clone, Debug)]
pub struct Trade {
    pub maker_order_id: OrderId,
    pub taker_order_id: OrderId,
    pub symbol: Symbol,
    pub price: Price,
    pub quantity: Quantity,
    pub sequence_id: u64,
}

/// Returned by every order submission. Contains all trades that were
/// generated and the final state of the submitted order.
#[derive(Debug)]
pub struct MatchResult {
    pub trades: Vec<Trade>,
    /// None if the order was fully consumed; Some if it rests in the book
    /// (limit) or was partially filled against an empty book (market).
    pub remaining: Option<Order>,
}

#[derive(Debug)]
pub enum EngineError {
    OrderNotFound(OrderId),
    SymbolMismatch { book: String, order: String },
    MissingLimitPrice,
}

impl Side {
    /// The side that trades against this one.
    pub open spec fn spec_opposite(self) -> Side {
        match self {
            Side::Bid => Side::Ask,
            Side::Ask => Side::Bid,
        }
    }
}

impl Order {
    /// A copy of the order.
    pub fn duplicate(&self) -> (r: Order)
        ensures
            r == *self,
    {
        Order {
            id: self.id,
            symbol: self.symbol.clone(),
            side: self.side,
            order_type: self.order_type,
            price: self.price,
            quantity: self.quantity,
            remaining: self.remaining,
            sequence_id: self.sequence_id,
            timestamp_us: self.timestamp_us,
        }
    }
}

} // verus!
