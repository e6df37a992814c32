//! The exchange: a set of named order books, and the dispatch of inbox
//! commands to them. One command is handled at a time, to completion.
use crate::ids::random_uuid;
use crate::matching::fill;
use crate::order_book::{Order, OrderBook, Side, cancelled, opposite_of, placed};
use crate::protocol::{
    InboxMessage, MessageWithId, OrderCancelled, OrderFilled, OrderNotFound, OrderPlaced, OutboxEnvelope,
    OutboxMessage, PlaceOrder, filled_event,
};
use vstd::prelude::*;

verus! {

#[derive(Debug, PartialEq, Eq, Structural)]
pub enum AddPairError {
    AlreadyExists,
}

/// Why a command produced no envelope.
#[derive(Debug, PartialEq, Eq, Structural)]
pub enum HandleError {
    /// No book trades the named pair.
    UnknownPair,
    /// The side is neither `"buy"` nor `"sell"`.
    UnknownSide,
    /// An order must have a positive volume.
    ZeroVolume,
    /// The id drawn for the new order already names a resting order.
    OrderIdInUse,
    /// The book has handed out every sequence number.
    SequenceExhausted,
}

/// The side a command names: `"buy"` or `"sell"`; any other name is none.
pub open spec fn side_named(s: Seq<char>) -> Option<Side> {
    if s == "buy"@ {
        Some(Side::Buy)
    } else if s == "sell"@ {
        Some(Side::Sell)
    } else {
        None
    }
}

pub struct Exchange {
    names: Vec<String>,
    books: Vec<OrderBook>,
}

impl Exchange {
    /// The names of the pairs, in the order they were added.
    pub closed spec fn pair_names(&self) -> Seq<Seq<char>> {
        self.names@.map_values(|s: String| s@)
    }

    /// The books of the pairs, in the same order as their names.
    pub closed spec fn books(&self) -> Seq<OrderBook> {
        self.books@
    }

    pub open spec fn wf(&self) -> bool {
        &&& self.pair_names().len() == self.books().len()
        &&& forall|i: int, j: int|
            0 <= i < j < self.pair_names().len() ==> #[trigger] self.pair_names()[i]
                != #[trigger] self.pair_names()[j]
        &&& forall|i: int| 0 <= i < self.books().len() ==> #[trigger] self.books()[i].wf()
    }

    pub open spec fn has_pair(&self, name: Seq<char>) -> bool {
        exists|i: int| 0 <= i < self.pair_names().len() && self.pair_names()[i] == name
    }

    /// Where the pair `name` stands, when it is present.
    pub open spec fn pair_index(&self, name: Seq<char>) -> int {
        choose|i: int| 0 <= i < self.pair_names().len() && self.pair_names()[i] == name
    }

    /// The exchange after the book at `i` became `b`, the rest unchanged.
    pub open spec fn with_book(&self, i: int, b: OrderBook, other: Exchange) -> bool {
        &&& other.pair_names() == self.pair_names()
        &&& other.books() == self.books().update(i, b)
    }

    pub fn new() -> (r: Self)
        ensures
            r.wf(),
            r.pair_names().len() == 0,
    {
        let r = Exchange { names: Vec::new(), books: Vec::new() };
        proof {
            assert(r.pair_names() =~= Seq::<Seq<char>>::empty());
        }
        r
    }

    fn find_pair(&self, pair: &String) -> (r: Option<usize>)
        requires
            self.wf(),
        ensures
            match r {
                Some(i) => self.has_pair(pair@) && i == self.pair_index(pair@),
                None => !self.has_pair(pair@),
            },
    {
        let mut i: usize = 0;
        while i < self.names.len()
            invariant
                self.wf(),
                0 <= i <= self.names@.len(),
                forall|j: int| 0 <= j < i ==> self.pair_names()[j] != pair@,
            decreases self.names@.len() - i,
        {
            proof {
                assert(self.pair_names()[i as int] == self.names@[i as int]@);
            }
            if self.names[i] == *pair {
                proof {
                    let k = self.pair_index(pair@);
                    assert(self.pair_names()[i as int] == pair@);
                    if k != i {
                        if k < i {
                            assert(self.pair_names()[k] != self.pair_names()[i as int]);
                        } else {
                            assert(self.pair_names()[i as int] != self.pair_names()[k]);
                        }
                    }
                }
                return Some(i);
            }
            i = i + 1;
        }
        None
    }

    /// Adds an empty book for a new pair.
    pub fn add_pair(&mut self, pair_name: &str) -> (r: Result<(), AddPairError>)
        requires
            old(self).wf(),
        ensures
            final(self).wf(),
            r is Err <==> old(self).has_pair(pair_name@),
            r is Err ==> r == Err::<(), _>(AddPairError::AlreadyExists) && *final(self) == *old(self),
            r is Ok ==> {
                &&& final(self).pair_names() == old(self).pair_names().push(pair_name@)
                &&& final(self).books().len() == old(self).books().len() + 1
                &&& final(self).books().drop_last() == old(self).books()
                &&& final(self).books().last().wf()
                &&& final(self).books().last().resting().is_empty()
                &&& final(self).books().last().next_seq() == 0
            },
    {
        let name = pair_name.to_owned();
        if self.find_pair(&name).is_some() {
            return Err(AddPairError::AlreadyExists);
        }
        let book = OrderBook::new();
        proof {
            assert(book.resting().dom() =~= Set::<u128>::empty());
        }
        self.names.push(name);
        self.books.push(book);
        proof {
            assert(self.pair_names() =~= old(self).pair_names().push(pair_name@));
            assert(self.books().drop_last() =~= old(self).books());
            assert forall|i: int, j: int|
                0 <= i < j < self.pair_names().len() implies #[trigger] self.pair_names()[i]
                != #[trigger] self.pair_names()[j] by {
                if j == old(self).pair_names().len() {
                    assert(old(self).pair_names()[i] == self.pair_names()[i]);
                }
            }
        }
        Ok(())
    }

    /// The book of the pair `pair`, if the exchange trades it.
    pub fn get_book(&self, pair: &String) -> (r: Option<&OrderBook>)
        requires
            self.wf(),
        ensures
            match r {
                Some(b) => self.has_pair(pair@) && *b == self.books()[self.pair_index(pair@)],
                None => !self.has_pair(pair@),
            },
    {
        match self.find_pair(pair) {
            Some(i) => Some(&self.books[i]),
            None => None,
        }
    }

    /// Handles one inbox command, drawing a fresh random id for a placed
    /// order. The outcome is the one `handle_with_order_id` gives for the id
    /// drawn.
    pub fn handle(&mut self, msg: InboxMessage) -> (r: Result<OutboxEnvelope, HandleError>)
        requires
            old(self).wf(),
        ensures
            final(self).wf(),
            exists|id: u128| handled(*old(self), *final(self), msg, id, r),
    {
        let id = random_uuid();
        self.handle_with_order_id(msg, id)
    }

    /// Handles one inbox command; a placed order gets the id `order_id`.
    pub fn handle_with_order_id(&mut self, msg: InboxMessage, order_id: u128) -> (r: Result<
        OutboxEnvelope,
        HandleError,
    >)
        requires
            old(self).wf(),
        ensures
            final(self).wf(),
            handled(*old(self), *final(self), msg, order_id, r),
    {
        let inbox_id = msg.get_id();
        let mut outbox = OutboxEnvelope::new(inbox_id);
        match msg {
            InboxMessage::PlaceOrder(message) => {
                let idx = match self.find_pair(&message.pair) {
                    Some(i) => i,
                    None => return Err(HandleError::UnknownPair),
                };
                let buy = "buy".to_owned();
                let sell = "sell".to_owned();
                let side = if message.side == buy {
                    Side::Buy
                } else if message.side == sell {
                    Side::Sell
                } else {
                    return Err(HandleError::UnknownSide);
                };
                if message.volume == 0 {
                    return Err(HandleError::ZeroVolume);
                }
                if self.books[idx].get_order(order_id).is_some() {
                    return Err(HandleError::OrderIdInUse);
                }
                if self.books[idx].next_seq_id() == u64::MAX {
                    return Err(HandleError::SequenceExhausted);
                }
                let order = Order { id: order_id, side, price: message.price, volume: message.volume };
                let ghost b0 = self.books()[idx as int];
                let deals = self.books[idx].place(order).unwrap();
                let ghost b1 = self.books()[idx as int];
                proof {
                    assert(self.books() =~= old(self).books().update(idx as int, b1));
                    assert(self.pair_names() =~= old(self).pair_names());
                }
                outbox.add_message(
                    OutboxMessage::OrderPlaced(
                        OrderPlaced {
                            order_id: order.id,
                            side: message.side,
                            price: order.price,
                            volume: order.volume,
                            pair: message.pair,
                        },
                    ),
                );
                let ghost head = outbox.messages@;
                let mut i: usize = 0;
                while i < deals.len()
                    invariant
                        0 <= i <= deals@.len(),
                        outbox.inbox_correlation_id == inbox_id,
                        outbox.messages@ == head + deals@.subrange(0, i as int).map_values(
                            |d| filled_event(d),
                        ),
                    decreases deals@.len() - i,
                {
                    let d = deals[i];
                    outbox.add_message(
                        OutboxMessage::OrderFilled(
                            OrderFilled {
                                maker_order: d.maker_order,
                                taker_order: d.taker_order,
                                volume: d.volume,
                            },
                        ),
                    );
                    proof {
                        assert(deals@.subrange(0, i as int + 1).map_values(|d| filled_event(d))
                            =~= deals@.subrange(0, i as int).map_values(|d| filled_event(d)).push(
                            filled_event(d),
                        ));
                    }
                    i = i + 1;
                }
                proof {
                    assert(deals@.subrange(0, deals@.len() as int) =~= deals@);
                }
            },
            InboxMessage::CancelOrder(message) => {
                let idx = match self.find_pair(&message.pair) {
                    Some(i) => i,
                    None => return Err(HandleError::UnknownPair),
                };
                let ghost b0 = self.books()[idx as int];
                let res = self.books[idx].cancel_order(message.order_id);
                let ghost b1 = self.books()[idx as int];
                proof {
                    assert(self.books() =~= old(self).books().update(idx as int, b1));
                    assert(self.pair_names() =~= old(self).pair_names());
                }
                match res {
                    Ok(_) => outbox.add_message(
                        OutboxMessage::OrderCancelled(
                            OrderCancelled { pair: message.pair, order_id: message.order_id },
                        ),
                    ),
                    Err(_) => outbox.add_message(
                        OutboxMessage::OrderNotFound(
                            OrderNotFound { pair: message.pair, order_id: message.order_id },
                        ),
                    ),
                }
            },
        }
        Ok(outbox)
    }
}

impl Default for Exchange {
    fn default() -> (r: Self)
        ensures
            r.wf(),
            r.pair_names().len() == 0,
    {
        Self::new()
    }
}

/// The order a place command makes, with the given id.
pub open spec fn order_of(m: PlaceOrder, order_id: u128) -> Order {
    Order { id: order_id, side: side_named(m.side@).unwrap(), price: m.price, volume: m.volume }
}

/// The outcome of handling `msg` on `e0`, giving a placed order the id
/// `order_id`: the envelope or error returned, and the exchange `e1` after.
pub open spec fn handled(
    e0: Exchange,
    e1: Exchange,
    msg: InboxMessage,
    order_id: u128,
    r: Result<OutboxEnvelope, HandleError>,
) -> bool {
    match msg {
        InboxMessage::PlaceOrder(m) => {
            let i = e0.pair_index(m.pair@);
            let b0 = e0.books()[i];
            let order = order_of(m, order_id);
            if !e0.has_pair(m.pair@) {
                r == Err::<OutboxEnvelope, _>(HandleError::UnknownPair) && e1 == e0
            } else if side_named(m.side@) is None {
                r == Err::<OutboxEnvelope, _>(HandleError::UnknownSide) && e1 == e0
            } else if m.volume == 0 {
                r == Err::<OutboxEnvelope, _>(HandleError::ZeroVolume) && e1 == e0
            } else if b0.resting().contains_key(order_id) {
                r == Err::<OutboxEnvelope, _>(HandleError::OrderIdInUse) && e1 == e0
            } else if b0.next_seq() == u64::MAX {
                r == Err::<OutboxEnvelope, _>(HandleError::SequenceExhausted) && e1 == e0
            } else {
                let deals = fill(b0.levels(opposite_of(order.side)), order).0;
                let placed_event = OutboxMessage::OrderPlaced(
                    OrderPlaced {
                        pair: m.pair,
                        side: m.side,
                        price: m.price,
                        volume: m.volume,
                        order_id,
                    },
                );
                &&& r matches Ok(env) && env.inbox_correlation_id == m.msg_id
                    && env.messages@ == seq![placed_event] + deals.map_values(|d| filled_event(d))
                &&& e0.with_book(i, e1.books()[i], e1)
                &&& placed(b0, e1.books()[i], order, deals)
            }
        },
        InboxMessage::CancelOrder(m) => {
            let i = e0.pair_index(m.pair@);
            let b0 = e0.books()[i];
            if !e0.has_pair(m.pair@) {
                r == Err::<OutboxEnvelope, _>(HandleError::UnknownPair) && e1 == e0
            } else {
                let event = if b0.resting().contains_key(m.order_id) {
                    OutboxMessage::OrderCancelled(OrderCancelled { order_id: m.order_id, pair: m.pair })
                } else {
                    OutboxMessage::OrderNotFound(OrderNotFound { order_id: m.order_id, pair: m.pair })
                };
                &&& r matches Ok(env) && env.inbox_correlation_id == m.msg_id && env.messages@ == seq![event]
                &&& e0.with_book(i, e1.books()[i], e1)
                &&& cancelled(b0, e1.books()[i], m.order_id)
            }
        },
    }
}

} // verus!
