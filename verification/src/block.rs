//! The five time blocks and their canonical order.

use crate::load::LoadError;
use vstd::prelude::*;

verus! {

/// Number of time blocks.
pub const BLOCK_COUNT: usize = 5;

/// A scheduling slot. A student attends at most one program per block.
#[derive(Debug, Hash, PartialEq, Eq, Clone, Copy, Structural)]
pub enum Block {
    Academics,
    Culture,
    Fest,
    Community,
    Experience,
}

impl Block {
    /// Position of the block in the canonical order, `0..5`.
    pub open spec fn index(self) -> int {
        match self {
            Block::Academics => 0,
            Block::Culture => 1,
            Block::Fest => 2,
            Block::Community => 3,
            Block::Experience => 4,
        }
    }

    /// The block at a position of the canonical order. Positions outside
    /// `0..5` have no block; the last one stands in for them.
    pub open spec fn at(i: int) -> Block {
        if i == 0 {
            Block::Academics
        } else if i == 1 {
            Block::Culture
        } else if i == 2 {
            Block::Fest
        } else if i == 3 {
            Block::Community
        } else {
            Block::Experience
        }
    }

    /// The block that a catalog code stands for. Codes run from 1 to 5.
    pub open spec fn of_code(code: u8) -> Option<Block> {
        if 1 <= code <= 5 {
            Some(Block::at(code - 1))
        } else {
            None
        }
    }

    /// Executable form of [`Block::index`].
    pub fn slot(&self) -> (i: usize)
        ensures
            i == self.index(),
            i < BLOCK_COUNT,
    {
        match self {
            Block::Academics => 0,
            Block::Culture => 1,
            Block::Fest => 2,
            Block::Community => 3,
            Block::Experience => 4,
        }
    }

    /// All blocks in canonical order.
    pub fn values() -> (all: [Block; 5])
        ensures
            forall|i: int| 0 <= i < 5 ==> all[i] == Block::at(i),
    {
        [Block::Academics, Block::Culture, Block::Fest, Block::Community, Block::Experience]
    }

    /// Decodes a catalog block code; any code outside `1..=5` is an error
    /// that carries the offending code.
    pub fn from_code(code: u8) -> (r: Result<Block, LoadError>)
        ensures
            match r {
                Ok(b) => Block::of_code(code) == Some(b),
                Err(e) => Block::of_code(code) is None && e == LoadError::UnknownBlock(code),
            },
    {
        match code {
            1 => Ok(Block::Academics),
            2 => Ok(Block::Culture),
            3 => Ok(Block::Fest),
            4 => Ok(Block::Community),
            5 => Ok(Block::Experience),
            _ => Err(LoadError::UnknownBlock(code)),
        }
    }
}

/// `index` and `at` are inverse to each other on the five blocks.
pub proof fn lemma_block_index(b: Block)
    ensures
        0 <= b.index() < 5,
        Block::at(b.index()) == b,
{
}

/// Every position below five is the index of its block.
pub proof fn lemma_block_at(i: int)
    requires
        0 <= i < 5,
    ensures
        Block::at(i).index() == i,
{
}

} // verus!
