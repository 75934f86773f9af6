//! The change mask: a small bitset recording why a node needs
//! recomputation this cycle.
//!
//! `view` means the node's view value was replaced by a non-equal value,
//! `state` means durable state attached to the node changed, and `size`
//! means the size resolved by layout differs from the previous frame's.
//! Masks accumulate during build and layout and are cleared at the end of
//! every cycle by a full-tree reset walk.

use vstd::prelude::*;

verus! {

/// A set of reasons a node needs recomputation.
#[derive(Clone, Copy, PartialEq, Eq, Structural, Debug)]
pub struct Change {
    pub view: bool,
    pub state: bool,
    pub size: bool,
}

impl Change {
    /// The empty mask.
    pub fn none() -> (c: Change)
        ensures
            c == Change::spec_none(),
    {
        Change { view: false, state: false, size: false }
    }

    /// The empty mask.
    pub open spec fn spec_none() -> Change {
        Change { view: false, state: false, size: false }
    }

    /// The mask with only the view bit set.
    pub fn view_bit() -> (c: Change)
        ensures
            c == Change::spec_view_bit(),
    {
        Change { view: true, state: false, size: false }
    }

    /// The mask with only the view bit set.
    pub open spec fn spec_view_bit() -> Change {
        Change { view: true, state: false, size: false }
    }

    /// The mask with only the state bit set.
    pub fn state_bit() -> (c: Change)
        ensures
            c == (Change { view: false, state: true, size: false }),
    {
        Change { view: false, state: true, size: false }
    }

    /// The mask with only the size bit set.
    pub fn size_bit() -> (c: Change)
        ensures
            c == Change::spec_size_bit(),
    {
        Change { view: false, state: false, size: true }
    }

    /// The mask with only the size bit set.
    pub open spec fn spec_size_bit() -> Change {
        Change { view: false, state: false, size: true }
    }

    /// The union of two masks.
    pub open spec fn spec_union(self, other: Change) -> Change {
        Change {
            view: self.view || other.view,
            state: self.state || other.state,
            size: self.size || other.size,
        }
    }

    /// Merge the given mask into this one.
    pub fn add(&mut self, change: Change)
        ensures
            *final(self) == old(self).spec_union(change),
    {
        self.view = self.view || change.view;
        self.state = self.state || change.state;
        self.size = self.size || change.size;
    }

    /// Whether this mask shares at least one set bit with the given one.
    /// In particular, `contains` of the empty mask is always false.
    pub fn contains(&self, change: Change) -> (r: bool)
        ensures
            r == ((self.view && change.view) || (self.state && change.state) || (self.size
                && change.size)),
    {
        (self.view && change.view) || (self.state && change.state) || (self.size && change.size)
    }

    /// Clear every bit.
    pub fn clear(&mut self)
        ensures
            *final(self) == Change::spec_none(),
    {
        self.view = false;
        self.state = false;
        self.size = false;
    }
}

} // verus!
