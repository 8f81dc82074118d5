//! Records of a bath-house status service: bath trunks and comments on them.

use vstd::prelude::*;

verus! {

/// A bath trunk: the building it stands in and its coordinates there.
#[derive(Debug)]
pub struct BathTrunk {
    pub building: String,
    pub cord: (i32, i32),
}

/// A comment on a bath trunk.
#[derive(Debug)]
pub struct Comment {
    /// Id of the bath trunk commented on.
    pub btid: i32,
    /// Score from 0 to 9.
    pub score: i32,
    /// Time in milliseconds since the epoch.
    pub time: i64,
    pub message: String,
}

} // verus!
