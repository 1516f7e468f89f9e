//! The single counter from which primitives and operations draw their identifiers.

use crate::node_id::{node_id_of, NodeId, MODULUS};
use vstd::prelude::*;

verus! {

/// Hands out identifiers in increasing order, each at most once, until the
/// 24-bit range is used up.
pub struct GlobalId {
    next: u32,
}

impl View for GlobalId {
    type V = u32;

    /// The identifier that the next call of `next` hands out; `MODULUS` once
    /// every identifier has been handed out.
    closed spec fn view(&self) -> u32 {
        self.next
    }
}

impl GlobalId {
    #[verifier::type_invariant]
    spec fn bounded(self) -> bool {
        self.next <= MODULUS
    }

    pub fn new() -> (r: GlobalId)
        ensures
            r@ == 0,
    {
        GlobalId { next: 0 }
    }

    /// The identifier that `next` would hand out, without handing it out.
    pub fn peek(&self) -> (r: Option<NodeId>)
        ensures
            self@ <= MODULUS,
            match r {
                Some(id) => self@ < MODULUS && id@ == self@ && id == node_id_of(self@),
                None => self@ == MODULUS,
            },
    {
        proof {
            use_type_invariant(self);
        }
        if self.next < MODULUS {
            Some(NodeId::new(self.next))
        } else {
            None
        }
    }

    /// Hands out the next identifier, or `None` once all of them are used.
    pub fn next(&mut self) -> (r: Option<NodeId>)
        ensures
            old(self)@ <= MODULUS,
            match r {
                Some(id) => old(self)@ < MODULUS && id == node_id_of(old(self)@) && id@ == old(self)@
                    && final(self)@ == old(self)@ + 1,
                None => old(self)@ == MODULUS && final(self)@ == old(self)@,
            },
    {
        proof {
            use_type_invariant(&*self);
        }
        if self.next < MODULUS {
            let id = NodeId::new(self.next);
            self.next = self.next + 1;
            Some(id)
        } else {
            None
        }
    }
}

impl Default for GlobalId {
    fn default() -> (r: GlobalId)
        ensures
            r@ == 0,
    {
        GlobalId::new()
    }
}

} // verus!
