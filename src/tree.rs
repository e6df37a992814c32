//! The ordered store behind each side of an order book.
//!
//! Each side is an `rbtree::RBTree` keyed by a rank `Rank`; the tree
//! orders ranks as std orders tuples, first component first.
use crate::order_book::Order;
use rbtree::RBTree;
use vstd::prelude::*;

verus! {

/// A position in a side tree.
pub type Rank = (u64, u64);

/// One side of a book: orders by rank.
pub type SideTree = RBTree<Rank, Order>;

#[verifier::external_type_specification]
#[verifier::external_body]
#[verifier::reject_recursive_types(K)]
#[verifier::reject_recursive_types(V)]
pub struct ExRBTree<K: Ord, V>(RBTree<K, V>);

/// What a side tree holds: each rank with the order stored under it.
pub uninterp spec fn tree_entries(t: SideTree) -> Map<Rank, Order>;

/// The strict order that std's `Ord` gives to `Rank`: lexicographic.
pub open spec fn rank_lt(a: Rank, b: Rank) -> bool {
    a.0 < b.0 || (a.0 == b.0 && a.1 < b.1)
}

/// `k` is held in `m` and ranks before every other rank of `m`.
pub open spec fn is_first(m: Map<Rank, Order>, k: Rank) -> bool {
    &&& m.contains_key(k)
    &&& forall|j: Rank| #[trigger] m.contains_key(j) && j != k ==> rank_lt(k, j)
}

/// Relies on `RBTree::new`: a new tree is empty.
#[verifier::external_body]
pub(crate) fn tree_new() -> (r: SideTree)
    ensures
        tree_entries(r).is_empty(),
{
    RBTree::new()
}

/// Relies on `RBTree::insert`: it adds the entry (the tree keeps duplicate
/// keys side by side, so callers insert only absent ranks).
#[verifier::external_body]
pub(crate) fn tree_insert(t: &mut SideTree, k: Rank, v: Order)
    requires
        !tree_entries(*old(t)).contains_key(k),
    ensures
        tree_entries(*final(t)) == tree_entries(*old(t)).insert(k, v),
{
    t.insert(k, v)
}

/// Relies on `RBTree::replace_or_insert`: the rank then holds the new value.
#[verifier::external_body]
pub(crate) fn tree_replace(t: &mut SideTree, k: Rank, v: Order)
    ensures
        tree_entries(*final(t)) == tree_entries(*old(t)).insert(k, v),
{
    t.replace_or_insert(k, v);
}

/// Relies on `RBTree::remove`: the rank leaves the tree, with its value.
#[verifier::external_body]
pub(crate) fn tree_remove(t: &mut SideTree, k: &Rank) -> (r: Option<Order>)
    ensures
        tree_entries(*final(t)) == tree_entries(*old(t)).remove(*k),
        r == tree_entries(*old(t)).get(*k),
{
    t.remove(k)
}

/// Relies on `RBTree::get`: the value stored under a rank, if any.
#[verifier::external_body]
pub(crate) fn tree_get<'a>(t: &'a SideTree, k: &Rank) -> (r: Option<&'a Order>)
    ensures
        match r {
            Some(v) => tree_entries(*t).contains_key(*k) && *v == tree_entries(*t)[*k],
            None => !tree_entries(*t).contains_key(*k),
        },
{
    t.get(k)
}

/// Relies on `RBTree::get_first`: the entry with the least rank, if any.
#[verifier::external_body]
pub(crate) fn tree_first(t: &SideTree) -> (r: Option<(Rank, Order)>)
    ensures
        match r {
            Some((k, v)) => is_first(tree_entries(*t), k) && v == tree_entries(*t)[k],
            None => tree_entries(*t).is_empty(),
        },
{
    t.get_first().map(|(k, v)| (*k, *v))
}

/// Relies on `RBTree::iter`: every entry once, in ascending rank.
#[verifier::external_body]
pub(crate) fn tree_entries_in_order(t: &SideTree) -> (r: Vec<(Rank, Order)>)
    ensures
        forall|i: int, j: int| 0 <= i < j < r@.len() ==> rank_lt(#[trigger] r@[i].0, #[trigger] r@[j].0),
        forall|i: int| 0 <= i < r@.len() ==> tree_entries(*t).contains_key(#[trigger] r@[i].0)
            && r@[i].1 == tree_entries(*t)[r@[i].0],
        forall|k: Rank| #[trigger] tree_entries(*t).contains_key(k) ==> exists|i: int|
            0 <= i < r@.len() && #[trigger] r@[i].0 == k,
{
    t.iter().map(|(k, v)| (*k, *v)).collect()
}

} // verus!
