//! The matching rule, stated as a function of the side being walked and the
//! incoming order.
use crate::order_book::{Deal, Order, OrderBook, Side, opposite_of};
use crate::tree::{Rank, is_first, rank_lt};
use vstd::prelude::*;

verus! {

/// The taker may trade with the maker: a buy at or above the maker's price,
/// a sell at or below it.
pub open spec fn crosses(taker: Order, maker: Order) -> bool {
    match taker.side {
        Side::Buy => taker.price >= maker.price,
        Side::Sell => taker.price <= maker.price,
    }
}

/// The rank of the order that matches first, where `m` has one.
pub open spec fn first_rank(m: Map<Rank, Order>) -> Rank {
    choose|k: Rank| is_first(m, k)
}

/// What happens when `taker` walks the opposite side `opp`, best rank first:
/// the deals in the order they are made, the ranks of the makers they touch,
/// what `opp` holds afterwards, and the taker's volume left unfilled.
///
/// Each step trades `min(maker.volume, taker.volume)` with the first maker;
/// a maker left with nothing leaves `opp`. The walk stops when the taker is
/// filled, `opp` is empty, or the first maker does not cross.
pub open spec fn fill(opp: Map<Rank, Order>, taker: Order) -> (Seq<Deal>, Seq<Rank>, Map<Rank, Order>, u64)
    decreases opp.len(),
{
    let k = first_rank(opp);
    if taker.volume == 0 || !opp.dom().finite() || !is_first(opp, k) || !crosses(taker, opp[k]) {
        (Seq::empty(), Seq::empty(), opp, taker.volume)
    } else {
        let maker = opp[k];
        if maker.volume <= taker.volume {
            let deal = Deal { taker_order: taker, maker_order: maker, volume: maker.volume };
            let next = fill(opp.remove(k), taker.with_volume((taker.volume - maker.volume) as u64));
            (seq![deal] + next.0, seq![k] + next.1, next.2, next.3)
        } else {
            let deal = Deal { taker_order: taker, maker_order: maker, volume: taker.volume };
            let rest = opp.insert(k, maker.with_volume((maker.volume - taker.volume) as u64));
            (seq![deal], seq![k], rest, 0)
        }
    }
}

/// A map has at most one first rank.
pub proof fn lemma_first_unique(m: Map<Rank, Order>, k: Rank)
    requires
        is_first(m, k),
    ensures
        first_rank(m) == k,
{
    let j = first_rank(m);
    assert(is_first(m, j));
    if j != k {
        assert(rank_lt(k, j));
        assert(rank_lt(j, k));
    }
}

/// A finite map with an entry has a first rank.
pub proof fn lemma_has_first(m: Map<Rank, Order>)
    requires
        m.dom().finite(),
        m.len() > 0,
    ensures
        is_first(m, first_rank(m)),
    decreases m.len(),
{
    let k = m.dom().choose();
    assert(m.contains_key(k));
    let rest = m.remove(k);
    if rest.len() == 0 {
        assert forall|j: Rank| #[trigger] m.contains_key(j) && j != k implies rank_lt(k, j) by {
            assert(rest.contains_key(j));
        }
        assert(is_first(m, k));
    } else {
        lemma_has_first(rest);
        let f = first_rank(rest);
        if rank_lt(k, f) {
            assert forall|j: Rank| #[trigger] m.contains_key(j) && j != k implies rank_lt(k, j) by {
                if j != f {
                    assert(rest.contains_key(j));
                    assert(rank_lt(f, j));
                }
            }
            assert(is_first(m, k));
        } else {
            assert forall|j: Rank| #[trigger] m.contains_key(j) && j != f implies rank_lt(f, j) by {
                if j != k {
                    assert(rest.contains_key(j));
                }
            }
            assert(is_first(m, f));
        }
    }
}

/// The sum of the volumes of `deals`.
pub open spec fn total_volume(deals: Seq<Deal>) -> int
    decreases deals.len(),
{
    if deals.len() == 0 {
        0
    } else {
        deals[0].volume + total_volume(deals.drop_first())
    }
}

pub open spec fn min_volume(a: u64, b: u64) -> u64 {
    if a <= b {
        a
    } else {
        b
    }
}

/// What every walk satisfies; the laws below are read off it.
pub proof fn lemma_fill(opp: Map<Rank, Order>, taker: Order)
    ensures
        ({
            let (deals, ranks, rest, residual) = fill(opp, taker);
            &&& deals.len() == ranks.len()
            &&& rest.dom().subset_of(opp.dom())
            &&& total_volume(deals) + residual == taker.volume
            &&& deals.len() > 0 ==> ranks[0] == first_rank(opp)
            &&& forall|i: int| #![trigger ranks[i]] 0 <= i < ranks.len() ==> {
                &&& opp.contains_key(ranks[i])
                &&& deals[i].maker_order == opp[ranks[i]]
                &&& deals[i].volume == min_volume(deals[i].maker_order.volume, deals[i].taker_order.volume)
                &&& deals[i].volume <= opp[ranks[i]].volume
                &&& (deals[i].volume == opp[ranks[i]].volume <==> !rest.contains_key(ranks[i]))
                &&& deals[i].taker_order.volume > 0
            }
            &&& forall|k: Rank| #[trigger] rest.contains_key(k) ==> opp.contains_key(k) && rest[k].id == opp[k].id
            &&& forall|i: int, j: int| 0 <= i < j < ranks.len() ==> ranks[i] != ranks[j]
            &&& forall|i: int, a: Rank| #![trigger ranks[i], opp[a]] 0 <= i < ranks.len() && opp.contains_key(a)
                && rank_lt(a, ranks[i]) ==> exists|j: int| 0 <= j < i && ranks[j] == a
                && deals[j].volume == opp[a].volume
        }),
    decreases opp.len(),
{
    let k = first_rank(opp);
    if taker.volume == 0 || !opp.dom().finite() || !is_first(opp, k) || !crosses(taker, opp[k]) {
        assert(total_volume(Seq::<Deal>::empty()) == 0);
    } else {
        let maker = opp[k];
        if maker.volume <= taker.volume {
            let deal = Deal { taker_order: taker, maker_order: maker, volume: maker.volume };
            let opp1 = opp.remove(k);
            let t1 = taker.with_volume((taker.volume - maker.volume) as u64);
            lemma_fill(opp1, t1);
            let next = fill(opp1, t1);
            let (deals, ranks, rest, residual) = fill(opp, taker);
            assert(deals == seq![deal] + next.0);
            assert(ranks == seq![k] + next.1);
            assert(deals.drop_first() =~= next.0);
            assert forall|i: int| #![trigger ranks[i]] 0 <= i < ranks.len() implies {
                &&& opp.contains_key(ranks[i])
                &&& deals[i].maker_order == opp[ranks[i]]
                &&& deals[i].volume == min_volume(deals[i].maker_order.volume, deals[i].taker_order.volume)
                &&& deals[i].volume <= opp[ranks[i]].volume
                &&& (deals[i].volume == opp[ranks[i]].volume <==> !rest.contains_key(ranks[i]))
                &&& deals[i].taker_order.volume > 0
            } by {
                if i > 0 {
                    assert(ranks[i] == next.1[i - 1]);
                    assert(deals[i] == next.0[i - 1]);
                }
            }
            assert forall|i: int, j: int| 0 <= i < j < ranks.len() implies ranks[i] != ranks[j] by {
                assert(ranks[j] == next.1[j - 1]);
                if i > 0 {
                    assert(ranks[i] == next.1[i - 1]);
                } else {
                    assert(opp1.contains_key(next.1[j - 1]));
                }
            }
            assert forall|i: int, a: Rank| #![trigger ranks[i], opp[a]] 0 <= i < ranks.len() && opp.contains_key(a)
                && rank_lt(a, ranks[i]) implies exists|j: int| 0 <= j < i && ranks[j] == a
                && deals[j].volume == opp[a].volume by {
                if i == 0 {
                    assert(rank_lt(k, a));
                } else {
                    assert(ranks[i] == next.1[i - 1]);
                    if a == k {
                        assert(ranks[0] == a);
                    } else {
                        assert(opp1.contains_key(a));
                        assert(opp1[a] == opp[a]);
                        let j1 = choose|j1: int| 0 <= j1 < i - 1 && next.1[j1] == a
                            && next.0[j1].volume == opp1[a].volume;
                        assert(ranks[j1 + 1] == a);
                    }
                }
            }
        } else {
            let (deals, ranks, rest, residual) = fill(opp, taker);
            assert(deals.drop_first() =~= Seq::<Deal>::empty());
            assert(total_volume(Seq::<Deal>::empty()) == 0);
            assert(total_volume(deals) == deals[0].volume);
            assert(rest.dom() =~= opp.dom());
            assert forall|i: int, a: Rank| #![trigger ranks[i], opp[a]] 0 <= i < ranks.len() && opp.contains_key(a)
                && rank_lt(a, ranks[i]) implies exists|j: int| 0 <= j < i && ranks[j] == a
                && deals[j].volume == opp[a].volume by {
                assert(rank_lt(k, a));
            }
        }
    }
}

/// Every deal trades the smaller of the maker's and the taker's volume as
/// they stood just before it.
pub proof fn lemma_deal_volume_is_min(opp: Map<Rank, Order>, taker: Order)
    ensures
        forall|i: int| #![trigger fill(opp, taker).0[i]] 0 <= i < fill(opp, taker).0.len() ==> {
            let d = fill(opp, taker).0[i];
            d.volume == min_volume(d.maker_order.volume, d.taker_order.volume)
        },
{
    lemma_fill(opp, taker);
    let (deals, ranks, rest, residual) = fill(opp, taker);
    assert forall|i: int| #![trigger deals[i]] 0 <= i < deals.len() implies deals[i].volume == min_volume(
        deals[i].maker_order.volume,
        deals[i].taker_order.volume,
    ) by {
        assert(ranks[i] == ranks[i]);
    }
}

/// Against a side whose orders all have volume, every deal trades a
/// positive volume.
pub proof fn lemma_deal_volume_positive(opp: Map<Rank, Order>, taker: Order)
    requires
        forall|k: Rank| #[trigger] opp.contains_key(k) ==> opp[k].volume > 0,
    ensures
        forall|i: int| #![trigger fill(opp, taker).0[i]] 0 <= i < fill(opp, taker).0.len() ==> fill(
            opp,
            taker,
        ).0[i].volume > 0,
{
    lemma_fill(opp, taker);
    let (deals, ranks, rest, residual) = fill(opp, taker);
    assert forall|i: int| #![trigger deals[i]] 0 <= i < deals.len() implies deals[i].volume > 0 by {
        assert(opp.contains_key(ranks[i]));
    }
}

/// Volume is conserved by a placement: the deals and the unfilled rest add
/// up to the incoming volume. Each maker is touched at most once, never for
/// more than it had, and leaves the book exactly when it is filled in full.
pub proof fn lemma_volume_conserved(opp: Map<Rank, Order>, taker: Order)
    ensures
        ({
            let (deals, ranks, rest, residual) = fill(opp, taker);
            &&& total_volume(deals) + residual == taker.volume
            &&& forall|i: int, j: int| 0 <= i < j < ranks.len() ==> ranks[i] != ranks[j]
            &&& forall|i: int| #![trigger ranks[i]] 0 <= i < ranks.len() ==> {
                &&& opp.contains_key(ranks[i])
                &&& deals[i].maker_order == opp[ranks[i]]
                &&& deals[i].volume <= opp[ranks[i]].volume
                &&& (deals[i].volume == opp[ranks[i]].volume <==> !rest.contains_key(ranks[i]))
            }
        }),
{
    lemma_fill(opp, taker);
}

/// Price-time priority: of two resting orders at one price on the side a
/// taker walks, the older is filled in full before the newer is touched.
pub proof fn lemma_price_time_priority(book: OrderBook, taker: Order, a: Rank, b: Rank)
    requires
        book.wf(),
        book.levels(opposite_of(taker.side)).contains_key(a),
        book.levels(opposite_of(taker.side)).contains_key(b),
        book.levels(opposite_of(taker.side))[a].price == book.levels(opposite_of(taker.side))[b].price,
        a.1 < b.1,
    ensures
        ({
            let opp = book.levels(opposite_of(taker.side));
            let (deals, ranks, rest, residual) = fill(opp, taker);
            forall|i: int| 0 <= i < ranks.len() && #[trigger] ranks[i] == b ==> exists|j: int|
                0 <= j < i && ranks[j] == a && deals[j].volume == opp[a].volume
        }),
{
    let opp = book.levels(opposite_of(taker.side));
    lemma_fill(opp, taker);
    assert(opp.contains_key(a) && opp.contains_key(b));
    assert(rank_lt(a, b));
    let (deals, ranks, rest, residual) = fill(opp, taker);
    assert forall|i: int| 0 <= i < ranks.len() && #[trigger] ranks[i] == b implies exists|j: int|
        0 <= j < i && ranks[j] == a && deals[j].volume == opp[a].volume by {
        assert(rank_lt(a, ranks[i]) && opp[a] == opp[a]);
    }
}

/// Best price first: the first maker a buy touches is a lowest-priced sell,
/// the first a sell touches a highest-priced buy.
pub proof fn lemma_best_price_first(book: OrderBook, taker: Order)
    requires
        book.wf(),
        fill(book.levels(opposite_of(taker.side)), taker).0.len() > 0,
    ensures
        ({
            let opp = book.levels(opposite_of(taker.side));
            let first = fill(opp, taker).0[0].maker_order;
            forall|k: Rank| #[trigger] opp.contains_key(k) ==> match taker.side {
                Side::Buy => first.price <= opp[k].price,
                Side::Sell => first.price >= opp[k].price,
            }
        }),
{
    let opp = book.levels(opposite_of(taker.side));
    lemma_fill(opp, taker);
    let f = first_rank(opp);
    assert(is_first(opp, f));
    assert forall|k: Rank| #[trigger] opp.contains_key(k) implies match taker.side {
        Side::Buy => opp[f].price <= opp[k].price,
        Side::Sell => opp[f].price >= opp[k].price,
    } by {
        if k != f {
            assert(rank_lt(f, k));
        }
    }
}

} // verus!
