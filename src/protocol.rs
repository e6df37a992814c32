//! Commands sent to the exchange (inbox) and the events it publishes back
//! (outbox). Ids are UUIDs held as integers.
use crate::order_book::{Deal, Order};
use vstd::prelude::*;

verus! {

/// A command that carries the id the gateway gave it.
pub trait MessageWithId {
    spec fn msg_id_of(&self) -> u128;

    fn get_id(&self) -> (r: u128)
        ensures
            r == self.msg_id_of(),
    ;
}

#[derive(Debug, Clone, PartialEq, Eq)]
pub struct PlaceOrder {
    pub msg_id: u128,
    pub pair: String,
    pub side: String,
    pub price: u64,
    pub volume: u64,
}

impl MessageWithId for PlaceOrder {
    open spec fn msg_id_of(&self) -> u128 {
        self.msg_id
    }

    fn get_id(&self) -> (r: u128) {
        self.msg_id
    }
}

#[derive(Debug, Clone, PartialEq, Eq)]
pub struct CancelOrder {
    pub msg_id: u128,
    pub pair: String,
    pub order_id: u128,
}

impl MessageWithId for CancelOrder {
    open spec fn msg_id_of(&self) -> u128 {
        self.msg_id
    }

    fn get_id(&self) -> (r: u128) {
        self.msg_id
    }
}

#[derive(Debug, Clone, PartialEq, Eq)]
pub struct OrderPlaced {
    pub pair: String,
    pub side: String,
    pub price: u64,
    pub volume: u64,
    pub order_id: u128,
}

#[derive(Debug, Clone, PartialEq, Eq)]
pub struct OrderFilled {
    pub taker_order: Order,
    pub maker_order: Order,
    pub volume: u64,
}

#[derive(Debug, Clone, PartialEq, Eq)]
pub struct OrderCancelled {
    pub order_id: u128,
    pub pair: String,
}

#[derive(Debug, Clone, PartialEq, Eq)]
pub struct OrderNotFound {
    pub order_id: u128,
    pub pair: String,
}

#[derive(Debug, Clone, PartialEq, Eq)]
pub enum InboxMessage {
    PlaceOrder(PlaceOrder),
    CancelOrder(CancelOrder),
}

impl MessageWithId for InboxMessage {
    open spec fn msg_id_of(&self) -> u128 {
        match self {
            InboxMessage::PlaceOrder(m) => m.msg_id,
            InboxMessage::CancelOrder(m) => m.msg_id,
        }
    }

    fn get_id(&self) -> (r: u128) {
        match self {
            InboxMessage::PlaceOrder(m) => m.get_id(),
            InboxMessage::CancelOrder(m) => m.get_id(),
        }
    }
}

#[derive(Debug, Clone, PartialEq, Eq)]
pub enum OutboxMessage {
    OrderPlaced(OrderPlaced),
    OrderFilled(OrderFilled),
    OrderCancelled(OrderCancelled),
    OrderNotFound(OrderNotFound),
}

/// The `OrderFilled` event that reports a deal.
pub open spec fn filled_event(d: Deal) -> OutboxMessage {
    OutboxMessage::OrderFilled(
        OrderFilled { taker_order: d.taker_order, maker_order: d.maker_order, volume: d.volume },
    )
}

/// All events published for one inbox command, under that command's id.
#[derive(Debug, Clone, PartialEq, Eq)]
pub struct OutboxEnvelope {
    pub inbox_correlation_id: u128,
    pub messages: Vec<OutboxMessage>,
}

impl OutboxEnvelope {
    pub fn new(inbox_correlation_id: u128) -> (r: Self)
        ensures
            r.inbox_correlation_id == inbox_correlation_id,
            r.messages@ == Seq::<OutboxMessage>::empty(),
    {
        OutboxEnvelope { inbox_correlation_id, messages: Vec::new() }
    }

    pub fn add_message(&mut self, msg: OutboxMessage)
        ensures
            final(self).inbox_correlation_id == old(self).inbox_correlation_id,
            final(self).messages@ == old(self).messages@.push(msg),
    {
        self.messages.push(msg);
    }
}

} // verus!
