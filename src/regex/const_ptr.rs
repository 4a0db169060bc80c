//! Handles to arena slots.
use vstd::prelude::*;

verus! {

/// A non-owning handle to one slot of one arena. It is meaningful only for the arena that
/// issued it, and only until that arena grows.
#[derive(Clone, Copy, Debug)]
pub struct Const {
    pub index: usize,
}

impl Const {
    pub fn new(index: usize) -> (r: Self)
        ensures
            r.index == index,
    {
        Const { index }
    }

    /// A handle that no arena can issue.
    pub fn dangling() -> (r: Self)
        ensures
            r.index == usize::MAX,
    {
        Const { index: usize::MAX }
    }

    /// Whether two handles name the same slot.
    pub fn ptr_eq(self, rhs: Self) -> (r: bool)
        ensures
            r == (self.index == rhs.index),
    {
        self.index == rhs.index
    }
}

} // verus!
