//! The three component slots of a vector, and which position names each.

use vstd::prelude::*;

verus! {

/// One of the three component slots of a three-component vector.
#[derive(Clone, Copy, Debug, PartialEq, Eq, Structural)]
pub enum Axis {
    X,
    Y,
    Z,
}

impl Axis {
    /// The position of this slot: 0, 1 or 2.
    pub open spec fn position(self) -> nat {
        match self {
            Axis::X => 0,
            Axis::Y => 1,
            Axis::Z => 2,
        }
    }

    /// The slot at position `i`; positions other than 0, 1 and 2 name no slot.
    pub fn from_index(i: usize) -> (r: Option<Axis>)
        ensures
            r.is_some() <==> i < 3,
            r matches Some(a) ==> a.position() == i,
    {
        match i {
            0 => Some(Axis::X),
            1 => Some(Axis::Y),
            2 => Some(Axis::Z),
            _ => None,
        }
    }
}

} // verus!
