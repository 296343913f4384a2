//! Choice of the client set.

use crate::bulletin::copy_ids;
use crate::protocol::ClientId;
use vstd::prelude::*;

verus! {

/// Decides which clients a round covers.
pub trait ClientSetSelector {
    spec fn chosen(&self) -> Seq<ClientId>;

    fn canonical_set(&self) -> (r: Vec<ClientId>)
        ensures
            r@ == self.chosen(),
    ;
}

/// A set fixed in advance.
pub struct FixedSet(pub Vec<ClientId>);

impl ClientSetSelector for FixedSet {
    open spec fn chosen(&self) -> Seq<ClientId> {
        self.0@
    }

    fn canonical_set(&self) -> (r: Vec<ClientId>) {
        copy_ids(&self.0)
    }
}

} // verus!
