//! The correlation registry: pending requests by command id, each with the
//! one-shot slot its waiter listens on. The slot type is left to the caller.
use std::collections::HashMap;
use vstd::prelude::*;

verus! {

broadcast use vstd::std_specs::hash::group_hash_axioms;

#[verifier::reject_recursive_types(S)]
pub struct OutboxResults<S> {
    senders: HashMap<u128, S>,
}

impl<S> OutboxResults<S> {
    /// The slots of the requests still waiting, by command id.
    pub closed spec fn pending(&self) -> Map<u128, S> {
        self.senders@
    }

    pub fn new() -> (r: Self)
        ensures
            r.pending().is_empty(),
    {
        OutboxResults { senders: HashMap::new() }
    }

    /// Whether a request with this id is waiting here.
    pub fn has_id(&self, id: u128) -> (r: bool)
        ensures
            r == self.pending().contains_key(id),
    {
        self.senders.contains_key(&id)
    }

    /// Installs the slot a request with this id waits on; it takes the
    /// place of any slot the id had.
    pub fn register_waiter(&mut self, id: u128, slot: S)
        ensures
            final(self).pending() == old(self).pending().insert(id, slot),
    {
        self.senders.insert(id, slot);
    }

    /// Takes out the slot waiting under this id, if any: a delivery fills
    /// it, a waiter that gives up drops it. Either way the id is no longer
    /// pending, so a slot is used at most once.
    pub fn take_waiter(&mut self, id: u128) -> (r: Option<S>)
        ensures
            r == old(self).pending().get(id),
            final(self).pending() == old(self).pending().remove(id),
    {
        self.senders.remove(&id)
    }
}

} // verus!
