//! The gateway's side of a request: checking what a client sent, turning it
//! into an inbox command, and shaping the envelope that answers it.
use crate::order_book::Deal;
use crate::protocol::{CancelOrder, InboxMessage, OutboxEnvelope, OutboxMessage, PlaceOrder};
use vstd::prelude::*;

verus! {

/// Why a request is refused before anything is sent.
#[derive(Debug, PartialEq, Eq, Structural)]
pub enum RequestError {
    EmptyPair,
    UnknownSide,
    ZeroPrice,
    ZeroVolume,
}

/// Why an envelope cannot answer the request it is correlated with.
#[derive(Debug, PartialEq, Eq, Structural)]
pub enum ResponseError {
    UnexpectedMessage,
    NoMessage,
}

#[derive(Debug, Clone, PartialEq, Eq)]
pub struct PlaceOrderRequest {
    pub pair: String,
    pub side: String,
    pub price: u64,
    pub volume: u64,
}

#[derive(Debug, Clone, PartialEq, Eq)]
pub struct PlaceOrderResponse {
    pub order_id: u128,
    pub deals: Vec<Deal>,
}

#[derive(Debug, Clone, PartialEq, Eq)]
pub struct CancelOrderRequest {
    pub pair: String,
    pub order_id: u128,
}

#[derive(Debug, Clone, Copy, PartialEq, Eq, Structural)]
pub enum CancelOrderResponseStatus {
    OrderCancelled,
    OrderNotFound,
}

#[derive(Debug, Clone, Copy, PartialEq, Eq, Structural)]
pub struct CancelOrderResponse {
    pub status: CancelOrderResponseStatus,
}

/// The first fault of a place request, checked in this order: an empty
/// pair, a side other than `"buy"` or `"sell"`, a zero price, a zero volume.
pub open spec fn place_request_fault(pair: Seq<char>, side: Seq<char>, price: u64, volume: u64) -> Option<
    RequestError,
> {
    if pair.len() == 0 {
        Some(RequestError::EmptyPair)
    } else if side != "buy"@ && side != "sell"@ {
        Some(RequestError::UnknownSide)
    } else if price == 0 {
        Some(RequestError::ZeroPrice)
    } else if volume == 0 {
        Some(RequestError::ZeroVolume)
    } else {
        None
    }
}

/// What a place response says for the events `msgs`: the id of the last
/// `OrderPlaced` (zero if none) and the deals of the `OrderFilled`s in
/// order, or nothing if another kind of event is among them.
pub open spec fn place_response_of(msgs: Seq<OutboxMessage>) -> Option<(u128, Seq<Deal>)>
    decreases msgs.len(),
{
    if msgs.len() == 0 {
        Some((0, Seq::empty()))
    } else {
        match place_response_of(msgs.drop_last()) {
            None => None,
            Some((id, deals)) => match msgs.last() {
                OutboxMessage::OrderPlaced(m) => Some((m.order_id, deals)),
                OutboxMessage::OrderFilled(m) => Some(
                    (id, deals.push(Deal { taker_order: m.taker_order, maker_order: m.maker_order, volume: m.volume })),
                ),
                _ => None,
            },
        }
    }
}

impl PlaceOrderRequest {
    /// Checks the request before it is sent to the exchange.
    pub fn validate(&self) -> (r: Result<(), RequestError>)
        ensures
            match place_request_fault(self.pair@, self.side@, self.price, self.volume) {
                Some(e) => r == Err::<(), RequestError>(e),
                None => r is Ok,
            },
    {
        if self.pair.as_str().is_empty() {
            return Err(RequestError::EmptyPair);
        }
        let buy = "buy".to_owned();
        let sell = "sell".to_owned();
        if self.side != buy && self.side != sell {
            return Err(RequestError::UnknownSide);
        }
        if self.price == 0 {
            return Err(RequestError::ZeroPrice);
        }
        if self.volume == 0 {
            return Err(RequestError::ZeroVolume);
        }
        Ok(())
    }

    /// The inbox command that carries this request under `msg_id`.
    pub fn to_inbox(self, msg_id: u128) -> (r: InboxMessage)
        ensures
            r == InboxMessage::PlaceOrder(
                PlaceOrder {
                    msg_id,
                    pair: self.pair,
                    side: self.side,
                    price: self.price,
                    volume: self.volume,
                },
            ),
    {
        InboxMessage::PlaceOrder(
            PlaceOrder {
                msg_id,
                price: self.price,
                side: self.side,
                pair: self.pair,
                volume: self.volume,
            },
        )
    }
}

impl CancelOrderRequest {
    /// The inbox command that carries this request under `msg_id`.
    pub fn to_inbox(self, msg_id: u128) -> (r: InboxMessage)
        ensures
            r == InboxMessage::CancelOrder(
                CancelOrder { msg_id, pair: self.pair, order_id: self.order_id },
            ),
    {
        InboxMessage::CancelOrder(CancelOrder { msg_id, pair: self.pair, order_id: self.order_id })
    }
}

impl PlaceOrderResponse {
    /// An empty response: the nil id and no deals.
    pub fn dummy() -> (r: Self)
        ensures
            r.order_id == 0,
            r.deals@ == Seq::<Deal>::empty(),
    {
        PlaceOrderResponse { order_id: 0, deals: Vec::new() }
    }

    /// The response to a place request, read from its envelope.
    pub fn from_envelope(envelope: &OutboxEnvelope) -> (r: Result<Self, ResponseError>)
        ensures
            match place_response_of(envelope.messages@) {
                Some((id, deals)) => r matches Ok(resp) && resp.order_id == id && resp.deals@ == deals,
                None => r == Err::<Self, ResponseError>(ResponseError::UnexpectedMessage),
            },
    {
        let mut response = PlaceOrderResponse::dummy();
        let mut i: usize = 0;
        while i < envelope.messages.len()
            invariant
                0 <= i <= envelope.messages@.len(),
                place_response_of(envelope.messages@.subrange(0, i as int)) == Some(
                    (response.order_id, response.deals@),
                ),
            decreases envelope.messages@.len() - i,
        {
            proof {
                assert(envelope.messages@.subrange(0, i as int + 1).drop_last()
                    =~= envelope.messages@.subrange(0, i as int));
            }
            match &envelope.messages[i] {
                OutboxMessage::OrderPlaced(m) => {
                    response.order_id = m.order_id;
                },
                OutboxMessage::OrderFilled(m) => {
                    response.deals.push(
                        Deal { taker_order: m.taker_order, maker_order: m.maker_order, volume: m.volume },
                    );
                },
                _ => {
                    proof {
                        lemma_rejected_stays(envelope.messages@, i as int + 1);
                    }
                    return Err(ResponseError::UnexpectedMessage);
                },
            }
            i = i + 1;
        }
        proof {
            assert(envelope.messages@.subrange(0, envelope.messages@.len() as int)
                =~= envelope.messages@);
        }
        Ok(response)
    }
}

/// Once a prefix of the events holds one that a place response cannot
/// carry, so does every longer prefix.
proof fn lemma_rejected_stays(msgs: Seq<OutboxMessage>, n: int)
    requires
        0 < n <= msgs.len(),
        place_response_of(msgs.subrange(0, n)) is None,
    ensures
        place_response_of(msgs) is None,
    decreases msgs.len() - n,
{
    if n < msgs.len() {
        assert(msgs.subrange(0, n + 1).drop_last() =~= msgs.subrange(0, n));
        lemma_rejected_stays(msgs, n + 1);
    } else {
        assert(msgs.subrange(0, n) =~= msgs);
    }
}

/// The status a cancel envelope reports: that of its first event, when that
/// is a cancel outcome.
pub open spec fn cancel_status_of(msgs: Seq<OutboxMessage>) -> Result<CancelOrderResponseStatus, ResponseError> {
    if msgs.len() == 0 {
        Err(ResponseError::NoMessage)
    } else {
        match msgs[0] {
            OutboxMessage::OrderCancelled(_) => Ok(CancelOrderResponseStatus::OrderCancelled),
            OutboxMessage::OrderNotFound(_) => Ok(CancelOrderResponseStatus::OrderNotFound),
            _ => Err(ResponseError::UnexpectedMessage),
        }
    }
}

impl CancelOrderResponse {
    /// The response to a cancel request, read from its envelope.
    pub fn from_envelope(envelope: &OutboxEnvelope) -> (r: Result<Self, ResponseError>)
        ensures
            match cancel_status_of(envelope.messages@) {
                Ok(status) => r == Ok::<Self, ResponseError>(CancelOrderResponse { status }),
                Err(e) => r == Err::<Self, ResponseError>(e),
            },
    {
        if envelope.messages.len() == 0 {
            return Err(ResponseError::NoMessage);
        }
        let status = match &envelope.messages[0] {
            OutboxMessage::OrderCancelled(_) => CancelOrderResponseStatus::OrderCancelled,
            OutboxMessage::OrderNotFound(_) => CancelOrderResponseStatus::OrderNotFound,
            _ => return Err(ResponseError::UnexpectedMessage),
        };
        Ok(CancelOrderResponse { status })
    }
}

} // verus!
