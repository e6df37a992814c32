//! A spot-trading exchange core: per-pair limit order books with
//! price-time priority matching, the command/event protocol that drives
//! them, and the request-correlation registry used by the gateway.
pub mod exchange;
pub mod gateway;
pub mod ids;
pub mod matching;
pub mod order_book;
pub mod protocol;
pub mod registry;
pub mod tree;
