//! Items that are handed on a batch at a time.

use vstd::prelude::*;

verus! {

/// How many items make a batch.
pub const BATCH: usize = 1000;

/// The items that were not handed on yet.
pub struct Batch<T> {
    items: Vec<T>,
}

impl<T> Batch<T> {
    /// The items that were not handed on yet.
    pub closed spec fn waiting(&self) -> Seq<T> {
        self.items@
    }

    /// No items.
    pub fn new() -> (r: Self)
        ensures
            r.waiting() == Seq::<T>::empty(),
    {
        Batch { items: Vec::new() }
    }

    /// Takes one more item. Once enough are there, gives them all, in order.
    pub fn take_in(&mut self, item: T) -> (r: Option<Vec<T>>)
        ensures
            ({
                let all = old(self).waiting().push(item);
                if all.len() >= BATCH {
                    (r matches Some(v) && v@ == all) && final(self).waiting() == Seq::<T>::empty()
                } else {
                    r is None && final(self).waiting() == all
                }
            }),
    {
        self.items.push(item);
        if self.items.len() < BATCH {
            return None;
        }
        let mut full: Vec<T> = Vec::new();
        core::mem::swap(&mut self.items, &mut full);
        Some(full)
    }

    /// Gives the items that are left, in order.
    pub fn rest(self) -> (r: Vec<T>)
        ensures
            r@ == self.waiting(),
    {
        self.items
    }
}

} // verus!
