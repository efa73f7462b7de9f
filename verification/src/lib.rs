//! An exchange core: a price-time priority order book, a sequencer that
//! makes the order flow replayable, and a risk engine that locks funds
//! before an order may enter the book.
pub mod amount;
pub mod order;
pub mod order_book;
pub mod book_laws;
pub mod sequencer;
pub mod risk;
pub mod exchange;
pub mod exchange_laws;
