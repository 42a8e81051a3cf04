//! What can go wrong while a world is prepared.

use vstd::prelude::*;

verus! {

/// The ways in which preparing a world can fail.
#[derive(Clone, Copy, Debug, PartialEq, Eq, Structural)]
pub enum PrepareError {
    /// The description is incomplete or contradicts itself: a map without
    /// geometry, an inverted box, a wall or a position that lacks a number,
    /// a spawn point outside the box of its map.
    MalformedInput,
    /// The description is sound but larger than the library can hold: a box
    /// of more than `i32::MAX` cells, more than 65536 maps, or a graph
    /// with more nodes or edges than its 32-bit indices can count.
    CapacityExceeded,
}

impl PrepareError {
    /// A short description of the error.
    pub fn message(&self) -> (text: String)
        ensures
            text@ == (match *self {
                PrepareError::MalformedInput => "malformed input"@,
                PrepareError::CapacityExceeded => "capacity exceeded"@,
            }),
    {
        match self {
            PrepareError::MalformedInput => "malformed input".to_string(),
            PrepareError::CapacityExceeded => "capacity exceeded".to_string(),
        }
    }
}

} // verus!
