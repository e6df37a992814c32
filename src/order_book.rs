//! A trading order book for one pair.
//!
//! Resting orders live in two ordered trees, one per side, keyed by a rank
//! that puts the order to match first in front: on the sell side the rank is
//! `(price, seq_id)`, on the buy side `(u64::MAX - price, seq_id)`, so the
//! best price leads and orders at one price keep their arrival order.
//! A map from order id to `TreeKey` finds a resting order without a walk.
use crate::ids::random_uuid;
use crate::matching::{
    crosses, fill, first_rank, lemma_fill, lemma_first_unique, lemma_has_first, total_volume,
};
use crate::tree::{
    Rank, SideTree, is_first, rank_lt, tree_entries, tree_entries_in_order, tree_first, tree_get, tree_insert,
    tree_new, tree_remove, tree_replace,
};
use std::collections::HashMap;
use vstd::prelude::*;

verus! {

broadcast use vstd::std_specs::hash::group_hash_axioms;

/// An error which can occur when placing an order.
#[derive(Debug)]
pub enum PlacingError {
    Cancelled,
}

/// An error which can occur when cancelling an order.
#[derive(Debug, PartialEq, Eq, Structural)]
pub enum CancellingError {
    OrderNotFound,
}

/// An error which can occur when changing an order volume.
#[derive(Debug, PartialEq, Eq, Structural)]
pub enum ChangeOrderVolumeError {
    ZeroVolume,
    OrderNotFound,
}

/// A side of the order book.
#[derive(Clone, Copy, Debug, PartialEq, Eq, Structural)]
pub enum Side {
    Buy,
    Sell,
}

pub open spec fn opposite_of(side: Side) -> Side {
    match side {
        Side::Buy => Side::Sell,
        Side::Sell => Side::Buy,
    }
}

impl Side {
    pub fn opposite(self) -> (r: Side)
        ensures
            r == opposite_of(self),
    {
        match self {
            Side::Buy => Side::Sell,
            Side::Sell => Side::Buy,
        }
    }
}

/// The rank under which an order rests in its side's tree.
pub open spec fn rank_of(side: Side, price: u64, seq_id: u64) -> Rank {
    match side {
        Side::Sell => (price, seq_id),
        Side::Buy => ((u64::MAX - price) as u64, seq_id),
    }
}

/// Where a resting order stands: its side, its price and the sequence
/// number the book gave it when it came to rest.
#[derive(Clone, Copy, Debug, PartialEq, Eq, Structural)]
pub struct TreeKey {
    pub side: Side,
    pub price: u64,
    pub seq_id: u64,
}

impl TreeKey {
    pub open spec fn spec_rank(self) -> Rank {
        rank_of(self.side, self.price, self.seq_id)
    }

    /// The rank of this key in its side's tree.
    pub fn rank(&self) -> (r: Rank)
        ensures
            r == self.spec_rank(),
    {
        match self.side {
            Side::Sell => (self.price, self.seq_id),
            Side::Buy => (u64::MAX - self.price, self.seq_id),
        }
    }
}

/// An exchange order for buying or selling assets; prices and volumes are
/// integers in the pair's minor units.
#[derive(Clone, Copy, Debug, PartialEq, Eq, Structural)]
pub struct Order {
    pub id: u128,
    pub side: Side,
    pub price: u64,
    pub volume: u64,
}

impl Order {
    /// A new order with a fresh random id.
    pub fn new(side: Side, price: u64, volume: u64) -> (r: Order)
        ensures
            r.side == side,
            r.price == price,
            r.volume == volume,
    {
        Order { id: random_uuid(), side, price, volume }
    }

    pub open spec fn with_volume(self, volume: u64) -> Order {
        Order { volume, ..self }
    }

    fn tree_key(&self, seq_id: u64) -> (r: TreeKey)
        ensures
            r == (TreeKey { side: self.side, price: self.price, seq_id }),
    {
        TreeKey { side: self.side, price: self.price, seq_id }
    }
}

/// A deal: the taker and maker as they stood just before it, and its volume.
#[derive(Clone, Copy, Debug, PartialEq, Eq, Structural)]
pub struct Deal {
    pub taker_order: Order,
    pub maker_order: Order,
    pub volume: u64,
}

/// The orders of one side: a finite map from rank to order, each order on
/// that side, with a positive volume, a rank that matches its price, and a
/// sequence number below `next_seq`.
pub open spec fn side_ok(m: Map<Rank, Order>, side: Side, next_seq: u64) -> bool {
    &&& m.dom().finite()
    &&& forall|k: Rank| #[trigger]
        m.contains_key(k) ==> {
            &&& m[k].side == side
            &&& m[k].volume > 0
            &&& k == rank_of(side, m[k].price, k.1)
            &&& k.1 < next_seq
        }
}

/// Every order of `m` is found through `by_id` under its own key.
pub open spec fn indexed(m: Map<Rank, Order>, side: Side, by_id: Map<u128, TreeKey>) -> bool {
    forall|k: Rank| #[trigger]
        m.contains_key(k) ==> {
            &&& by_id.contains_key(m[k].id)
            &&& by_id[m[k].id] == (TreeKey { side, price: m[k].price, seq_id: k.1 })
        }
}

impl Default for OrderBook {
    fn default() -> (r: Self)
        ensures
            r.wf(),
            r.buys().is_empty(),
            r.sells().is_empty(),
            r.next_seq() == 0,
    {
        Self::new()
    }
}

/// Volume is conserved by a placement, read on the book: the deals trade at
/// most the order's volume, and what they leave of it rests under the
/// order's id, or nothing rests when they trade it all.
pub proof fn lemma_place_conserves_volume(b0: OrderBook, b1: OrderBook, order: Order, deals: Seq<Deal>)
    requires
        b0.wf(),
        b1.wf(),
        order.volume > 0,
        !b0.by_id().contains_key(order.id),
        placed(b0, b1, order, deals),
    ensures
        total_volume(deals) <= order.volume,
        total_volume(deals) < order.volume ==> b1.resting().contains_key(order.id)
            && b1.resting()[order.id] == order.with_volume((order.volume - total_volume(deals)) as u64),
        total_volume(deals) == order.volume ==> !b1.resting().contains_key(order.id),
{
    let opp = opposite_of(order.side);
    let f = fill(b0.levels(opp), order);
    lemma_fill(b0.levels(opp), order);
    let rk = rank_of(order.side, order.price, b0.next_seq());
    if f.3 > 0 {
        assert(b1.levels(order.side).contains_key(rk));
        assert(b1.levels(order.side)[rk] == order.with_volume(f.3));
        let tk = b1.by_id()[order.id];
        assert(tk.spec_rank() == rk);
    } else if b1.by_id().contains_key(order.id) {
        let tk = b1.by_id()[order.id];
        let k = tk.spec_rank();
        assert(b1.levels(tk.side).contains_key(k));
        if tk.side == order.side {
            assert(b0.levels(order.side).contains_key(k));
        } else {
            assert(tk.side == opp);
            assert(f.2.contains_key(k));
            assert(b0.levels(opp).contains_key(k));
        }
    }
}

/// What cancelling `id` does: that order leaves its tree and the index,
/// and nothing else changes. An id that is not resting changes nothing.
pub open spec fn cancelled(b0: OrderBook, b1: OrderBook, id: u128) -> bool {
    &&& b1.resting() == b0.resting().remove(id)
    &&& b1.next_seq() == b0.next_seq()
    &&& if b0.resting().contains_key(id) {
        let tk = b0.by_id()[id];
        &&& b1.levels(tk.side) == b0.levels(tk.side).remove(tk.spec_rank())
        &&& b1.levels(opposite_of(tk.side)) == b0.levels(opposite_of(tk.side))
    } else {
        b1 == b0
    }
}

/// Two of `orders`, the later on the other side, would trade.
pub open spec fn crossing_pair(orders: Seq<Order>) -> bool {
    exists|i: int, j: int|
        0 <= i < j < orders.len() && #[trigger] orders[i].side != #[trigger] orders[j].side
            && crosses(orders[j], orders[i])
}

/// `v` holds the orders of `m`, each once, in ascending rank.
pub open spec fn in_match_order(m: Map<Rank, Order>, v: Seq<Order>) -> bool {
    exists|ks: Seq<Rank>|
        {
            &&& ks.len() == v.len()
            &&& forall|i: int, j: int| 0 <= i < j < ks.len() ==> rank_lt(#[trigger] ks[i], #[trigger] ks[j])
            &&& forall|i: int| 0 <= i < ks.len() ==> m.contains_key(#[trigger] ks[i]) && v[i] == m[ks[i]]
            &&& forall|k: Rank| #[trigger] m.contains_key(k) ==> ks.contains(k)
        }
}

/// An error which can occur when building a book from a list of orders.
#[derive(Debug, PartialEq, Eq, Structural)]
pub enum SetupError {
    OrdersMatch,
}

/// A trading order book.
pub struct OrderBook {
    next_seq_id: u64,
    buy_levels: SideTree,
    sell_levels: SideTree,
    by_uuid: HashMap<u128, TreeKey>,
}

impl OrderBook {
    /// The resting buy orders, by rank.
    pub closed spec fn buys(&self) -> Map<Rank, Order> {
        tree_entries(self.buy_levels)
    }

    /// The resting sell orders, by rank.
    pub closed spec fn sells(&self) -> Map<Rank, Order> {
        tree_entries(self.sell_levels)
    }

    /// The index from order id to where the order rests.
    pub closed spec fn by_id(&self) -> Map<u128, TreeKey> {
        self.by_uuid@
    }

    /// The sequence number the next resting order will get.
    pub closed spec fn next_seq(&self) -> u64 {
        self.next_seq_id
    }

    pub open spec fn levels(&self, side: Side) -> Map<Rank, Order> {
        match side {
            Side::Buy => self.buys(),
            Side::Sell => self.sells(),
        }
    }

    /// No resting buy is priced at or above a resting sell.
    pub open spec fn no_cross(&self) -> bool {
        forall|b: Rank, s: Rank| #[trigger]
            self.buys().contains_key(b) && #[trigger] self.sells().contains_key(s)
                ==> self.buys()[b].price < self.sells()[s].price
    }

    /// The id index and the two trees describe the same orders.
    pub open spec fn index_ok(&self) -> bool {
        &&& indexed(self.buys(), Side::Buy, self.by_id())
        &&& indexed(self.sells(), Side::Sell, self.by_id())
        &&& forall|id: u128| #[trigger]
            self.by_id().contains_key(id) ==> {
                let tk = self.by_id()[id];
                &&& self.levels(tk.side).contains_key(tk.spec_rank())
                &&& self.levels(tk.side)[tk.spec_rank()].id == id
            }
    }

    pub open spec fn wf(&self) -> bool {
        &&& side_ok(self.buys(), Side::Buy, self.next_seq())
        &&& side_ok(self.sells(), Side::Sell, self.next_seq())
        &&& self.no_cross()
        &&& self.index_ok()
    }

    /// The resting orders, by id.
    pub open spec fn resting(&self) -> Map<u128, Order> {
        Map::new(
            |id: u128| self.by_id().contains_key(id),
            |id: u128| self.levels(self.by_id()[id].side)[self.by_id()[id].spec_rank()],
        )
    }

    /// Creates a new empty order book.
    pub fn new() -> (r: Self)
        ensures
            r.wf(),
            r.buys().is_empty(),
            r.sells().is_empty(),
            r.by_id().is_empty(),
            r.next_seq() == 0,
    {
        OrderBook {
            next_seq_id: 0,
            buy_levels: tree_new(),
            sell_levels: tree_new(),
            by_uuid: HashMap::new(),
        }
    }

    /// Creates a book holding the given orders, placed one after another.
    /// Fails if any of them would trade with one placed before it.
    pub fn new_with_orders(orders: Vec<Order>) -> (r: Result<Self, SetupError>)
        requires
            orders@.len() < u64::MAX,
            forall|i: int| 0 <= i < orders@.len() ==> #[trigger] orders@[i].volume > 0,
            forall|i: int, j: int|
                0 <= i < j < orders@.len() ==> #[trigger] orders@[i].id != #[trigger] orders@[j].id,
        ensures
            r is Ok <==> !crossing_pair(orders@),
            r matches Ok(book) ==> {
                &&& book.wf()
                &&& book.next_seq() == orders@.len()
                &&& forall|i: int| #![trigger orders@[i]] 0 <= i < orders@.len() ==> {
                    let o = orders@[i];
                    &&& book.levels(o.side).contains_key(rank_of(o.side, o.price, i as u64))
                    &&& book.levels(o.side)[rank_of(o.side, o.price, i as u64)] == o
                }
                &&& forall|i: int| #![trigger orders@[i]] 0 <= i < orders@.len() ==> {
                    &&& book.resting().contains_key(orders@[i].id)
                    &&& book.resting()[orders@[i].id] == orders@[i]
                }
                &&& forall|id: u128| #[trigger] book.resting().contains_key(id) ==> exists|i: int|
                    0 <= i < orders@.len() && orders@[i].id == id
                &&& forall|s: Side, k: Rank| #[trigger] book.levels(s).contains_key(k) ==> exists|i: int|
                    0 <= i < orders@.len() && orders@[i].side == s
                        && k == rank_of(s, orders@[i].price, i as u64) && book.levels(s)[k] == orders@[i]
            },
    {
        let mut book = Self::new();
        let mut i: usize = 0;
        while i < orders.len()
            invariant
                0 <= i <= orders@.len(),
                orders@.len() < u64::MAX,
                forall|i: int| 0 <= i < orders@.len() ==> #[trigger] orders@[i].volume > 0,
                forall|i: int, j: int|
                    0 <= i < j < orders@.len() ==> #[trigger] orders@[i].id != #[trigger] orders@[j].id,
                book.wf(),
                book.next_seq() == i,
                !crossing_pair(orders@.subrange(0, i as int)),
                forall|j: int| #![trigger orders@[j]] 0 <= j < i ==> {
                    let o = orders@[j];
                    &&& book.levels(o.side).contains_key(rank_of(o.side, o.price, j as u64))
                    &&& book.levels(o.side)[rank_of(o.side, o.price, j as u64)] == o
                },
                forall|s: Side, k: Rank| #[trigger] book.levels(s).contains_key(k) ==> exists|j: int|
                    0 <= j < i && k.1 == j && orders@[j].side == s && book.levels(s)[k] == orders@[j],
            decreases orders@.len() - i,
        {
            let order = orders[i];
            let ghost b0 = book;
            proof {
                if b0.by_id().contains_key(order.id) {
                    let tk = b0.by_id()[order.id];
                    assert(b0.levels(tk.side).contains_key(tk.spec_rank()));
                }
            }
            let deals = match book.place(order) {
                Ok(deals) => deals,
                Err(_) => return Err(SetupError::OrdersMatch),
            };
            if deals.len() != 0 {
                proof {
                    let opp = b0.levels(opposite_of(order.side));
                    if beyond_reach(opp, order) {
                        lemma_beyond_reach_fills_nothing(opp, order, b0.next_seq());
                    }
                    assert(!beyond_reach(opp, order));
                    let k = choose|k: Rank| #[trigger] opp.contains_key(k) && !match order.side {
                        Side::Buy => order.price < opp[k].price,
                        Side::Sell => order.price > opp[k].price,
                    };
                    assert(opp.contains_key(k));
                    let j = choose|j: int| 0 <= j < i && k.1 == j && orders@[j].side == opposite_of(order.side)
                        && opp[k] == orders@[j];
                    assert(orders@[j] == orders@.subrange(0, i as int + 1)[j]);
                    assert(orders@[i as int] == orders@.subrange(0, i as int + 1)[i as int]);
                    assert(crossing_pair(orders@.subrange(0, i as int + 1)));
                    lemma_crossing_extends(orders@, i as int + 1);
                }
                return Err(SetupError::OrdersMatch);
            }
            proof {
                let opp = b0.levels(opposite_of(order.side));
                lemma_beyond_reach(opp, order, b0.next_seq());
                assert(fill(opp, order).3 == order.volume);
                assert(order.with_volume(order.volume) == order);
                let sub = orders@.subrange(0, i as int + 1);
                assert forall|a: int, c: int| 0 <= a < c < sub.len() implies !(#[trigger] sub[a].side != #[trigger] sub[c].side
                    && crosses(sub[c], sub[a])) by {
                    if c < i {
                        assert(sub[a] == orders@.subrange(0, i as int)[a]);
                        assert(sub[c] == orders@.subrange(0, i as int)[c]);
                    } else {
                        let oa = orders@[a];
                        let ka = rank_of(oa.side, oa.price, a as u64);
                        assert(b0.levels(oa.side).contains_key(ka));
                        if oa.side != order.side {
                            assert(oa.side == opposite_of(order.side));
                            assert(opp.contains_key(ka));
                        }
                    }
                }
            }
            i = i + 1;
        }
        proof {
            assert(orders@.subrange(0, orders@.len() as int) =~= orders@);
            assert forall|id: u128| #[trigger] book.resting().contains_key(id) implies exists|i: int|
                0 <= i < orders@.len() && orders@[i].id == id by {
                let tk = book.by_id()[id];
                assert(book.levels(tk.side).contains_key(tk.spec_rank()));
            }
            assert forall|j: int| #![trigger orders@[j]] 0 <= j < orders@.len() implies {
                &&& book.resting().contains_key(orders@[j].id)
                &&& book.resting()[orders@[j].id] == orders@[j]
            } by {
                let o = orders@[j];
                assert(book.levels(o.side).contains_key(rank_of(o.side, o.price, j as u64)));
            }
        }
        Ok(book)
    }

    /// The resting orders of one side, in the order they would be matched.
    pub fn side_orders(&self, side: Side) -> (r: Vec<Order>)
        requires
            self.wf(),
        ensures
            in_match_order(self.levels(side), r@),
    {
        let entries = tree_entries_in_order(self.tree(side));
        let mut r: Vec<Order> = Vec::new();
        let mut i: usize = 0;
        while i < entries.len()
            invariant
                0 <= i <= entries@.len(),
                r@.len() == i,
                forall|j: int| 0 <= j < i ==> #[trigger] r@[j] == entries@[j].1,
            decreases entries@.len() - i,
        {
            r.push(entries[i].1);
            i = i + 1;
        }
        proof {
            let ks = entries@.map_values(|e: (Rank, Order)| e.0);
            assert forall|k: Rank| #[trigger] self.levels(side).contains_key(k) implies ks.contains(k) by {
                let j = choose|j: int| 0 <= j < entries@.len() && #[trigger] entries@[j].0 == k;
                assert(ks[j] == k);
            }
            assert(ks.len() == r@.len());
        }
        r
    }

    /// The resting buy orders, highest price first.
    pub fn buy_orders(&self) -> (r: Vec<Order>)
        requires
            self.wf(),
        ensures
            in_match_order(self.buys(), r@),
    {
        self.side_orders(Side::Buy)
    }

    /// The resting sell orders, lowest price first.
    pub fn sell_orders(&self) -> (r: Vec<Order>)
        requires
            self.wf(),
        ensures
            in_match_order(self.sells(), r@),
    {
        self.side_orders(Side::Sell)
    }

    /// The sequence number the next resting order will get.
    pub fn next_seq_id(&self) -> (r: u64)
        ensures
            r == self.next_seq(),
    {
        self.next_seq_id
    }

    fn tree(&self, side: Side) -> (r: &SideTree)
        ensures
            tree_entries(*r) == self.levels(side),
    {
        match side {
            Side::Sell => &self.sell_levels,
            Side::Buy => &self.buy_levels,
        }
    }

    /// Returns the resting order with this id, if there is one.
    pub fn get_order(&self, id: u128) -> (r: Option<&Order>)
        requires
            self.wf(),
        ensures
            match r {
                Some(o) => self.resting().contains_key(id) && *o == self.resting()[id],
                None => !self.resting().contains_key(id),
            },
    {
        match self.by_uuid.get(&id) {
            Some(key) => {
                let tree = self.tree(key.side);
                tree_get(tree, &key.rank())
            },
            None => None,
        }
    }

    /// Places the order and matches it against the opposite side, best
    /// price first and, at one price, oldest first. What is left of the
    /// order comes to rest. Returns the deals in the order they were made.
    pub fn place(&mut self, order: Order) -> (r: Result<Vec<Deal>, PlacingError>)
        requires
            old(self).wf(),
            order.volume > 0,
            !old(self).by_id().contains_key(order.id),
            old(self).next_seq() < u64::MAX,
        ensures
            final(self).wf(),
            r matches Ok(deals) && placed(*old(self), *final(self), order, deals@),
    {
        let opp_side = order.side.opposite();
        let mut deals: Vec<Deal> = Vec::new();
        let mut taker = order;
        let ghost opp0 = old(self).levels(opp_side);
        let ghost ranks: Seq<Rank> = Seq::empty();
        while taker.volume > 0
            invariant
                self.wf(),
                taker == order.with_volume(taker.volume),
                opp_side == opposite_of(order.side),
                !self.by_id().contains_key(order.id),
                self.next_seq() == old(self).next_seq(),
                self.levels(order.side) == old(self).levels(order.side),
                fill(opp0, order) == ({
                    let f = fill(self.levels(opp_side), taker);
                    (deals@ + f.0, ranks + f.1, f.2, f.3)
                }),
            ensures
                fill(self.levels(opp_side), taker).0.len() == 0,
            decreases taker.volume,
        {
            let ghost opp = self.levels(opp_side);
            let ghost d0 = deals@;
            let ghost r0 = ranks;
            let ghost t0 = taker;
            let first = tree_first(self.tree(opp_side));
            match first {
                None => {
                    proof {
                        assert(!is_first(opp, first_rank(opp)));
                    }
                    break;
                },
                Some((rank, maker)) => {
                    proof {
                        lemma_first_unique(opp, rank);
                    }
                    let crossing = match taker.side {
                        Side::Buy => taker.price >= maker.price,
                        Side::Sell => taker.price <= maker.price,
                    };
                    if !crossing {
                        break;
                    }
                    if maker.volume <= taker.volume {
                        deals.push(Deal { taker_order: taker, maker_order: maker, volume: maker.volume });
                        let key = TreeKey { side: opp_side, price: maker.price, seq_id: rank.1 };
                        let ghost b0 = *self;
                        self.remove_order(&key, &maker.id);
                        proof {
                            lemma_removed(b0, *self, opp_side, rank);
                            ranks = ranks.push(rank);
                        }
                        taker.volume = taker.volume - maker.volume;
                    } else {
                        deals.push(Deal { taker_order: taker, maker_order: maker, volume: taker.volume });
                        let mut rest = maker;
                        rest.volume = maker.volume - taker.volume;
                        let ghost b0 = *self;
                        self.replace_order(opp_side, rank, rest);
                        proof {
                            lemma_revalued(b0, *self, opp_side, rank, rest.volume);
                            ranks = ranks.push(rank);
                        }
                        taker.volume = 0;
                    }
                    proof {
                        let f = fill(self.levels(opp_side), taker);
                        assert(d0 + fill(opp, t0).0 =~= deals@ + f.0);
                        assert(r0 + fill(opp, t0).1 =~= ranks + f.1);
                    }
                },
            }
        }
        if taker.volume != 0 {
            proof {
                lemma_beyond_reach(self.levels(opp_side), taker, self.next_seq());
            }
            self.add_order(&taker);
        }
        Ok(deals)
    }

    fn add_order(&mut self, order: &Order)
        requires
            old(self).wf(),
            order.volume > 0,
            !old(self).by_id().contains_key(order.id),
            old(self).next_seq() < u64::MAX,
            beyond_reach(old(self).levels(opposite_of(order.side)), *order),
        ensures
            final(self).wf(),
            final(self).levels(order.side) == old(self).levels(order.side).insert(
                rank_of(order.side, order.price, old(self).next_seq()),
                *order,
            ),
            final(self).levels(opposite_of(order.side)) == old(self).levels(opposite_of(order.side)),
            final(self).next_seq() == old(self).next_seq() + 1,
            final(self).resting() == old(self).resting().insert(order.id, *order),
    {
        let key = order.tree_key(self.next_seq_id);
        let rank = key.rank();
        let ghost b0 = *self;
        proof {
            assert(!b0.levels(order.side).contains_key(rank));
        }
        match order.side {
            Side::Sell => tree_insert(&mut self.sell_levels, rank, *order),
            Side::Buy => tree_insert(&mut self.buy_levels, rank, *order),
        }
        self.by_uuid.insert(order.id, key);
        self.next_seq_id = self.next_seq_id + 1;
        proof {
            lemma_inserted(b0, *self, *order);
        }
    }

    fn remove_order(&mut self, key: &TreeKey, order_id: &u128)
        ensures
            final(self).levels(key.side) == old(self).levels(key.side).remove(key.spec_rank()),
            final(self).levels(opposite_of(key.side)) == old(self).levels(opposite_of(key.side)),
            final(self).by_id() == old(self).by_id().remove(*order_id),
            final(self).next_seq() == old(self).next_seq(),
    {
        let rank = key.rank();
        match key.side {
            Side::Sell => {
                tree_remove(&mut self.sell_levels, &rank);
            },
            Side::Buy => {
                tree_remove(&mut self.buy_levels, &rank);
            },
        }
        self.by_uuid.remove(order_id);
    }

    fn replace_order(&mut self, side: Side, rank: Rank, order: Order)
        ensures
            final(self).levels(side) == old(self).levels(side).insert(rank, order),
            final(self).levels(opposite_of(side)) == old(self).levels(opposite_of(side)),
            final(self).by_id() == old(self).by_id(),
            final(self).next_seq() == old(self).next_seq(),
    {
        match side {
            Side::Sell => tree_replace(&mut self.sell_levels, rank, order),
            Side::Buy => tree_replace(&mut self.buy_levels, rank, order),
        }
    }

    /// Cancels the order with this id.
    pub fn cancel_order(&mut self, order_id: u128) -> (r: Result<(), CancellingError>)
        requires
            old(self).wf(),
        ensures
            final(self).wf(),
            r is Ok <==> old(self).resting().contains_key(order_id),
            cancelled(*old(self), *final(self), order_id),
    {
        match self.by_uuid.get(&order_id) {
            Some(key) => {
                let key = *key;
                proof {
                    assert(old(self).levels(key.side).contains_key(key.spec_rank()));
                }
                self.remove_order(&key, &order_id);
                proof {
                    lemma_removed(*old(self), *self, key.side, key.spec_rank());
                }
                Ok(())
            },
            None => {
                proof {
                    assert(old(self).resting().remove(order_id) =~= old(self).resting());
                }
                Err(CancellingError::OrderNotFound)
            },
        }
    }

    /// Changes the volume of a resting order in place: it keeps its rank,
    /// and with it its time priority, whether the volume goes down or up.
    pub fn change_order_volume(&mut self, order_id: u128, new_volume: u64) -> (r: Result<
        (),
        ChangeOrderVolumeError,
    >)
        requires
            old(self).wf(),
        ensures
            final(self).wf(),
            final(self).next_seq() == old(self).next_seq(),
            new_volume == 0 ==> r == Err::<(), _>(ChangeOrderVolumeError::ZeroVolume),
            new_volume != 0 && !old(self).resting().contains_key(order_id) ==> r == Err::<(), _>(
                ChangeOrderVolumeError::OrderNotFound,
            ),
            new_volume != 0 && old(self).resting().contains_key(order_id) ==> r is Ok,
            r is Err ==> *final(self) == *old(self),
            r is Ok ==> ({
                let tk = old(self).by_id()[order_id];
                let rank = tk.spec_rank();
                &&& new_volume != 0
                &&& old(self).resting().contains_key(order_id)
                &&& final(self).levels(tk.side) == old(self).levels(tk.side).insert(
                    rank,
                    old(self).levels(tk.side)[rank].with_volume(new_volume),
                )
                &&& final(self).levels(opposite_of(tk.side)) == old(self).levels(opposite_of(tk.side))
                &&& final(self).resting() == old(self).resting().insert(
                    order_id,
                    old(self).resting()[order_id].with_volume(new_volume),
                )
            }),
    {
        if new_volume == 0 {
            return Err(ChangeOrderVolumeError::ZeroVolume);
        }
        match self.by_uuid.get(&order_id) {
            Some(key) => {
                let key = *key;
                let rank = key.rank();
                let order = tree_get(self.tree(key.side), &rank);
                let mut new_order = *order.unwrap();
                new_order.volume = new_volume;
                self.replace_order(key.side, rank, new_order);
                proof {
                    lemma_revalued(*old(self), *self, key.side, rank, new_volume);
                }
                Ok(())
            },
            None => Err(ChangeOrderVolumeError::OrderNotFound),
        }
    }
}

/// No order of `opp` crosses `taker`: each is priced strictly worse for it.
pub open spec fn beyond_reach(opp: Map<Rank, Order>, taker: Order) -> bool {
    forall|k: Rank| #[trigger]
        opp.contains_key(k) ==> match taker.side {
            Side::Buy => taker.price < opp[k].price,
            Side::Sell => taker.price > opp[k].price,
        }
}

/// What `place` does to the book: the opposite side is left as `fill` says,
/// and an unfilled rest of the order comes to rest under the next sequence
/// number.
pub open spec fn placed(b0: OrderBook, b1: OrderBook, order: Order, deals: Seq<Deal>) -> bool {
    let opp = opposite_of(order.side);
    let f = fill(b0.levels(opp), order);
    &&& deals == f.0
    &&& b1.levels(opp) == f.2
    &&& if f.3 > 0 {
        &&& b1.levels(order.side) == b0.levels(order.side).insert(
            rank_of(order.side, order.price, b0.next_seq()),
            order.with_volume(f.3),
        )
        &&& b1.next_seq() == b0.next_seq() + 1
    } else {
        &&& b1.levels(order.side) == b0.levels(order.side)
        &&& b1.next_seq() == b0.next_seq()
    }
}

/// Where the walk stopped before the taker was filled, nothing left on the
/// opposite side crosses it.
proof fn lemma_beyond_reach(opp: Map<Rank, Order>, taker: Order, next_seq: u64)
    requires
        side_ok(opp, opposite_of(taker.side), next_seq),
        fill(opp, taker).0.len() == 0,
        taker.volume > 0,
    ensures
        beyond_reach(opp, taker),
{
    let k = first_rank(opp);
    if opp.len() > 0 {
        lemma_has_first(opp);
        assert(is_first(opp, k));
        assert(!crosses(taker, opp[k]));
        assert forall|j: Rank| #[trigger] opp.contains_key(j) implies match taker.side {
            Side::Buy => taker.price < opp[j].price,
            Side::Sell => taker.price > opp[j].price,
        } by {
            if j != k {
                assert(rank_lt(k, j));
            }
        }
    } else {
        assert(opp.dom() =~= Set::empty());
    }
}

/// A new order at a fresh sequence number, crossing nothing, keeps the book
/// well formed.
proof fn lemma_inserted(b0: OrderBook, b1: OrderBook, order: Order)
    requires
        b0.wf(),
        order.volume > 0,
        !b0.by_id().contains_key(order.id),
        beyond_reach(b0.levels(opposite_of(order.side)), order),
        b1.levels(order.side) == b0.levels(order.side).insert(
            rank_of(order.side, order.price, b0.next_seq()),
            order,
        ),
        b1.levels(opposite_of(order.side)) == b0.levels(opposite_of(order.side)),
        b1.by_id() == b0.by_id().insert(
            order.id,
            TreeKey { side: order.side, price: order.price, seq_id: b0.next_seq() },
        ),
        b1.next_seq() == b0.next_seq() + 1,
    ensures
        b1.wf(),
        b1.resting() == b0.resting().insert(order.id, order),
{
    assert(b1.resting() =~= b0.resting().insert(order.id, order));
}

/// A taker that crosses nothing on the walked side makes no deal and keeps
/// its whole volume.
proof fn lemma_beyond_reach_fills_nothing(opp: Map<Rank, Order>, taker: Order, next_seq: u64)
    requires
        side_ok(opp, opposite_of(taker.side), next_seq),
        beyond_reach(opp, taker),
    ensures
        fill(opp, taker).0.len() == 0,
        fill(opp, taker).3 == taker.volume,
{
    let k = first_rank(opp);
    if is_first(opp, k) {
        assert(opp.contains_key(k));
    }
}

/// A crossing pair among the first `n` orders is one among all of them.
proof fn lemma_crossing_extends(orders: Seq<Order>, n: int)
    requires
        0 <= n <= orders.len(),
        crossing_pair(orders.subrange(0, n)),
    ensures
        crossing_pair(orders),
{
    let sub = orders.subrange(0, n);
    let (i, j) = choose|i: int, j: int|
        0 <= i < j < sub.len() && #[trigger] sub[i].side != #[trigger] sub[j].side && crosses(sub[j], sub[i]);
    assert(orders[i] == sub[i] && orders[j] == sub[j]);
}

/// Taking one resting order out of both the tree and the index keeps the
/// book well formed and removes exactly that order.
proof fn lemma_removed(b0: OrderBook, b1: OrderBook, side: Side, k: Rank)
    requires
        b0.wf(),
        b0.levels(side).contains_key(k),
        b1.levels(side) == b0.levels(side).remove(k),
        b1.levels(opposite_of(side)) == b0.levels(opposite_of(side)),
        b1.by_id() == b0.by_id().remove(b0.levels(side)[k].id),
        b1.next_seq() == b0.next_seq(),
    ensures
        b1.wf(),
        b1.resting() == b0.resting().remove(b0.levels(side)[k].id),
{
    let id = b0.levels(side)[k].id;
    assert(b1.resting() =~= b0.resting().remove(id));
}

/// Giving a resting order a new positive volume in its tree keeps the book
/// well formed and changes that order alone.
proof fn lemma_revalued(b0: OrderBook, b1: OrderBook, side: Side, k: Rank, v: u64)
    requires
        b0.wf(),
        v > 0,
        b0.levels(side).contains_key(k),
        b1.levels(side) == b0.levels(side).insert(k, b0.levels(side)[k].with_volume(v)),
        b1.levels(opposite_of(side)) == b0.levels(opposite_of(side)),
        b1.by_id() == b0.by_id(),
        b1.next_seq() == b0.next_seq(),
    ensures
        b1.wf(),
        b1.resting() == b0.resting().insert(
            b0.levels(side)[k].id,
            b0.levels(side)[k].with_volume(v),
        ),
{
    let id = b0.levels(side)[k].id;
    assert(b1.resting() =~= b0.resting().insert(id, b0.levels(side)[k].with_volume(v)));
}

} // verus!
