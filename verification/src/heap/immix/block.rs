//! Blocks of lines.

use vstd::prelude::*;

verus! {

/// What a block is used for.
#[derive(Clone, Copy, PartialEq, Eq, PartialOrd, Ord, Debug, Structural)]
pub enum BlockState {
    EmptyCommited,
    EmptyUncommited,
    Unmarked,
    Marked,
    Reusable,
}

/// A block of lines.
#[derive(Clone, Copy, PartialEq, Eq, Debug, Structural)]
pub struct Block {
    pub index: usize,
    pub state: BlockState,
    pub begin: usize,
    pub end: usize,
}

impl Block {
    pub fn is_empty(&self) -> (r: bool)
        ensures
            r == (self.state == BlockState::EmptyCommited || self.state
                == BlockState::EmptyUncommited),
    {
        self.state == BlockState::EmptyCommited || self.state == BlockState::EmptyUncommited
    }

    pub fn is_alloc_allowed(&self) -> (r: bool)
        ensures
            r == (self.state == BlockState::Reusable || self.state == BlockState::EmptyCommited
                || self.state == BlockState::EmptyUncommited),
    {
        self.state == BlockState::Reusable || self.is_empty()
    }

    pub fn index(&self) -> (r: usize)
        ensures
            r == self.index,
    {
        self.index
    }
}

} // verus!
