use exchange_core::exchange::{AddPairError, Exchange, HandleError};
use exchange_core::gateway::{
    CancelOrderRequest, CancelOrderResponse, CancelOrderResponseStatus, PlaceOrderRequest,
    PlaceOrderResponse, RequestError, ResponseError,
};
use exchange_core::order_book::{Deal, Order, Side};
use exchange_core::protocol::{
    CancelOrder, InboxMessage, MessageWithId, OrderCancelled, OrderFilled, OrderNotFound, OrderPlaced,
    OutboxEnvelope, OutboxMessage, PlaceOrder,
};
use exchange_core::registry::OutboxResults;

fn place(msg_id: u128, pair: &str, side: &str, price: u64, volume: u64) -> InboxMessage {
    InboxMessage::PlaceOrder(PlaceOrder {
        msg_id,
        pair: pair.to_string(),
        side: side.to_string(),
        price,
        volume,
    })
}

fn cancel(msg_id: u128, pair: &str, order_id: u128) -> InboxMessage {
    InboxMessage::CancelOrder(CancelOrder { msg_id, pair: pair.to_string(), order_id })
}

fn exchange() -> Exchange {
    let mut ex = Exchange::new();
    ex.add_pair("BTC_USD").unwrap();
    ex
}

fn placed_id(env: &OutboxEnvelope) -> u128 {
    match &env.messages[0] {
        OutboxMessage::OrderPlaced(m) => m.order_id,
        other => panic!("unexpected first event {:?}", other),
    }
}

#[test]
fn cancel_round_trip() {
    let mut ex = exchange();
    let env = ex.handle(place(11, "BTC_USD", "buy", 1000, 5)).unwrap();
    assert_eq!(env.inbox_correlation_id, 11);
    assert_eq!(env.messages.len(), 1);
    let x = placed_id(&env);

    let env = ex.handle(cancel(12, "BTC_USD", x)).unwrap();
    assert_eq!(env.inbox_correlation_id, 12);
    assert_eq!(
        env.messages,
        vec![OutboxMessage::OrderCancelled(OrderCancelled {
            order_id: x,
            pair: "BTC_USD".to_string()
        })]
    );

    let env = ex.handle(cancel(13, "BTC_USD", x)).unwrap();
    assert_eq!(
        env.messages,
        vec![OutboxMessage::OrderNotFound(OrderNotFound {
            order_id: x,
            pair: "BTC_USD".to_string()
        })]
    );
}

#[test]
fn place_envelope_lists_placed_then_fills() {
    let mut ex = exchange();
    ex.handle_with_order_id(place(1, "BTC_USD", "sell", 4500, 7), 100).unwrap();
    ex.handle_with_order_id(place(2, "BTC_USD", "sell", 4800, 3), 101).unwrap();
    let env = ex.handle_with_order_id(place(3, "BTC_USD", "buy", 4900, 20), 102).unwrap();
    let taker = Order { id: 102, side: Side::Buy, price: 4900, volume: 20 };
    let maker1 = Order { id: 100, side: Side::Sell, price: 4500, volume: 7 };
    let maker2 = Order { id: 101, side: Side::Sell, price: 4800, volume: 3 };
    assert_eq!(env.inbox_correlation_id, 3);
    assert_eq!(
        env.messages,
        vec![
            OutboxMessage::OrderPlaced(OrderPlaced {
                pair: "BTC_USD".to_string(),
                side: "buy".to_string(),
                price: 4900,
                volume: 20,
                order_id: 102,
            }),
            OutboxMessage::OrderFilled(OrderFilled {
                taker_order: taker,
                maker_order: maker1,
                volume: 7
            }),
            OutboxMessage::OrderFilled(OrderFilled {
                taker_order: Order { volume: 13, ..taker },
                maker_order: maker2,
                volume: 3
            }),
        ]
    );
}

#[test]
fn unknown_side_is_an_error() {
    let mut ex = exchange();
    ex.handle_with_order_id(place(1, "BTC_USD", "buy", 100, 1), 7).unwrap();
    assert_eq!(
        ex.handle_with_order_id(place(2, "BTC_USD", "other", 100, 1), 8).err(),
        Some(HandleError::UnknownSide)
    );
    let env = ex.handle_with_order_id(place(3, "BTC_USD", "sell", 100, 1), 9).unwrap();
    assert_eq!(env.messages.len(), 2);
}

#[test]
fn unknown_pair_is_an_error() {
    let mut ex = exchange();
    assert_eq!(ex.handle(place(1, "ETH_USD", "buy", 1, 1)).err(), Some(HandleError::UnknownPair));
    assert_eq!(ex.handle(cancel(2, "ETH_USD", 5)).err(), Some(HandleError::UnknownPair));
}

#[test]
fn zero_volume_is_an_error() {
    let mut ex = exchange();
    assert_eq!(ex.handle(place(1, "BTC_USD", "buy", 1, 0)).err(), Some(HandleError::ZeroVolume));
}

#[test]
fn reused_order_id_is_an_error() {
    let mut ex = exchange();
    ex.handle_with_order_id(place(1, "BTC_USD", "buy", 10, 1), 5).unwrap();
    assert_eq!(
        ex.handle_with_order_id(place(2, "BTC_USD", "buy", 10, 1), 5).err(),
        Some(HandleError::OrderIdInUse)
    );
}

#[test]
fn add_pair_twice_fails() {
    let mut ex = Exchange::default();
    assert_eq!(ex.add_pair("A_B"), Ok(()));
    assert_eq!(ex.add_pair("C_D"), Ok(()));
    assert_eq!(ex.add_pair("A_B"), Err(AddPairError::AlreadyExists));
}

#[test]
fn pairs_keep_separate_books() {
    let mut ex = exchange();
    ex.add_pair("ETH_USD").unwrap();
    ex.handle_with_order_id(place(1, "BTC_USD", "buy", 100, 1), 1).unwrap();
    let env = ex.handle_with_order_id(place(2, "ETH_USD", "sell", 100, 1), 2).unwrap();
    assert_eq!(env.messages.len(), 1);
}

#[test]
fn get_id_of_commands() {
    assert_eq!(place(42, "X", "buy", 1, 1).get_id(), 42);
    assert_eq!(cancel(43, "X", 1).get_id(), 43);
}

#[test]
fn envelope_collects_messages() {
    let mut env = OutboxEnvelope::new(9);
    assert!(env.messages.is_empty());
    let m = OutboxMessage::OrderNotFound(OrderNotFound { order_id: 1, pair: "P".to_string() });
    env.add_message(m.clone());
    assert_eq!(env.inbox_correlation_id, 9);
    assert_eq!(env.messages, vec![m]);
}

#[test]
fn correlation_under_concurrency() {
    let mut results: OutboxResults<&str> = OutboxResults::new();
    results.register_waiter(1, "first request");
    results.register_waiter(2, "second request");
    assert!(results.has_id(1) && results.has_id(2));
    assert_eq!(results.take_waiter(2), Some("second request"));
    assert_eq!(results.take_waiter(1), Some("first request"));
    assert!(!results.has_id(1));
    assert_eq!(results.take_waiter(1), None);
}

#[test]
fn registry_drops_unknown_delivery() {
    let mut results: OutboxResults<u32> = OutboxResults::new();
    assert!(!results.has_id(5));
    assert_eq!(results.take_waiter(5), None);
    results.register_waiter(5, 1);
    results.register_waiter(5, 2);
    assert_eq!(results.take_waiter(5), Some(2));
}

fn request(pair: &str, side: &str, price: u64, volume: u64) -> PlaceOrderRequest {
    PlaceOrderRequest { pair: pair.to_string(), side: side.to_string(), price, volume }
}

#[test]
fn place_request_validation() {
    assert_eq!(request("BTC_USD", "buy", 1, 1).validate(), Ok(()));
    assert_eq!(request("BTC_USD", "sell", 1, 1).validate(), Ok(()));
    assert_eq!(request("", "buy", 1, 1).validate(), Err(RequestError::EmptyPair));
    assert_eq!(request("BTC_USD", "hold", 1, 1).validate(), Err(RequestError::UnknownSide));
    assert_eq!(request("BTC_USD", "buy", 0, 1).validate(), Err(RequestError::ZeroPrice));
    assert_eq!(request("BTC_USD", "buy", 1, 0).validate(), Err(RequestError::ZeroVolume));
}

#[test]
fn requests_become_commands() {
    assert_eq!(request("P", "buy", 3, 4).to_inbox(8), place(8, "P", "buy", 3, 4));
    let c = CancelOrderRequest { pair: "P".to_string(), order_id: 6 };
    assert_eq!(c.to_inbox(9), cancel(9, "P", 6));
}

#[test]
fn place_response_from_envelope() {
    let mut ex = exchange();
    ex.handle_with_order_id(place(1, "BTC_USD", "sell", 10, 2), 70).unwrap();
    let env = ex.handle_with_order_id(place(2, "BTC_USD", "buy", 10, 5), 71).unwrap();
    let resp = PlaceOrderResponse::from_envelope(&env).unwrap();
    assert_eq!(resp.order_id, 71);
    assert_eq!(
        resp.deals,
        vec![Deal {
            taker_order: Order { id: 71, side: Side::Buy, price: 10, volume: 5 },
            maker_order: Order { id: 70, side: Side::Sell, price: 10, volume: 2 },
            volume: 2,
        }]
    );
    let dummy = PlaceOrderResponse::dummy();
    assert_eq!(dummy.order_id, 0);
    assert!(dummy.deals.is_empty());
}

#[test]
fn place_response_rejects_cancel_events() {
    let mut env = OutboxEnvelope::new(1);
    env.add_message(OutboxMessage::OrderCancelled(OrderCancelled {
        order_id: 1,
        pair: "P".to_string(),
    }));
    assert_eq!(PlaceOrderResponse::from_envelope(&env).err(), Some(ResponseError::UnexpectedMessage));
}

#[test]
fn cancel_response_from_envelope() {
    let mut env = OutboxEnvelope::new(1);
    assert_eq!(CancelOrderResponse::from_envelope(&env).err(), Some(ResponseError::NoMessage));
    env.add_message(OutboxMessage::OrderNotFound(OrderNotFound { order_id: 1, pair: "P".to_string() }));
    assert_eq!(
        CancelOrderResponse::from_envelope(&env).unwrap().status,
        CancelOrderResponseStatus::OrderNotFound
    );
    let mut env = OutboxEnvelope::new(2);
    env.add_message(OutboxMessage::OrderCancelled(OrderCancelled {
        order_id: 1,
        pair: "P".to_string(),
    }));
    assert_eq!(
        CancelOrderResponse::from_envelope(&env).unwrap().status,
        CancelOrderResponseStatus::OrderCancelled
    );
    let mut env = OutboxEnvelope::new(3);
    env.add_message(OutboxMessage::OrderPlaced(OrderPlaced {
        pair: "P".to_string(),
        side: "buy".to_string(),
        price: 1,
        volume: 1,
        order_id: 1,
    }));
    assert_eq!(CancelOrderResponse::from_envelope(&env).err(), Some(ResponseError::UnexpectedMessage));
}
