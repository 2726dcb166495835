use vstd::prelude::*;

verus! {

/// The delivery class of a payload.
#[derive(Debug, Clone, Copy, PartialEq, Eq, Structural)]
pub enum Channel {
    Reliable,
    Unreliable,
}

} // verus!
