//! The values of a running program.
use vstd::prelude::*;

use crate::core_ir::Variant;

verus! {

/// The number of a cell of the heap.
#[derive(Clone, Copy, Debug, PartialEq, Eq, Structural)]
pub struct Cell(pub u32);

/// A value: held in itself, or the cell that holds it.
#[derive(Clone, Copy, Debug, PartialEq, Eq)]
pub enum Value {
    Nil,
    Int(u128),
    Nullary(Variant),
    Held(Cell),
}

/// What marks a word as the number of a cell.
pub const CELL_MARK: u64 = 0x7FFC_0000_0000_0000;

/// A cell as a word.
pub open spec fn cell_word(c: Cell) -> u64 {
    (CELL_MARK + c.0) as u64
}

/// The cell that a word names.
pub open spec fn word_cell(w: u64) -> Option<Cell> {
    if CELL_MARK <= w <= CELL_MARK + u32::MAX {
        Some(Cell((w - CELL_MARK) as u32))
    } else {
        None
    }
}

impl Value {
    /// The value that a cell holds.
    pub fn cell(c: Cell) -> (v: Value)
        ensures
            v == Value::Held(c),
    {
        Value::Held(c)
    }

    /// The cell that holds the value, if one does.
    pub fn as_cell(self) -> (c: Option<Cell>)
        ensures
            c == (match self {
                Value::Held(c) => Some(c),
                _ => None::<Cell>,
            }),
    {
        match self {
            Value::Held(c) => Some(c),
            _ => None,
        }
    }
}

/// A cell as a word.
pub fn to_word(c: Cell) -> (w: u64)
    ensures
        w == cell_word(c),
        word_cell(w) == Some(c),
{
    CELL_MARK + c.0 as u64
}

/// The cell that a word names.
pub fn from_word(w: u64) -> (c: Option<Cell>)
    ensures
        c == word_cell(w),
{
    if CELL_MARK <= w && w - CELL_MARK <= u32::MAX as u64 {
        Some(Cell((w - CELL_MARK) as u32))
    } else {
        None
    }
}

/// A word names the cell it was made for.
pub proof fn word_names_its_cell(c: Cell)
    ensures
        word_cell(cell_word(c)) == Some(c),
{
}

} // verus!
