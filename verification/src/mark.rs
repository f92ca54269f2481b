use vstd::prelude::*;

verus! {

/// A mark starts a new group in a deck. `depth` is the (internal) level of the
/// group that begins at item index `pos`: a mark of depth `d` opens one new
/// group at every level `0..=d`.
#[derive(Clone, Copy, Debug, PartialEq, Eq, Structural)]
pub struct OrcMark {
    pub depth: u8,
    pub pos: u64,
}

} // verus!
