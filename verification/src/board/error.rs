use vstd::prelude::*;

verus! {

/// Structural violations of the 81-cell, digit 0..=9 board contract.
/// Raised at construction, never during search.
#[derive(Debug, PartialEq, Eq, Structural)]
pub enum BoardError {
    /// The cell sequence did not hold exactly 81 values; carries the
    /// length that was given.
    InvalidLength(usize),
    /// A cell value above 9 was given; carries the offending value.
    InvalidDigit(u8),
}

/// Violations of the free-form text input format, checked before any
/// board is constructed.
#[derive(Debug, PartialEq, Eq, Structural)]
pub enum BoardParseError {
    /// The input held nothing but whitespace.
    EmptyInput,
    /// Fewer than 81 digit or blank characters were found.
    NotEnoughCells,
    /// More than 81 digit or blank characters were found.
    TooManyCells,
    /// The filtered cells were rejected by board construction.
    InvalidBoard(BoardError),
}

} // verus!
