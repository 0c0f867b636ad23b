//! Errors of the instance format and of the solver's parameters.

use vstd::prelude::*;

use crate::number::NumberError;

verus! {

/// The line of the instance format that a reader was after.
#[derive(Clone, Copy, Debug, PartialEq, Eq, Structural)]
pub enum LineKind {
    /// The first line: `o i a`.
    Header,
    /// The line of the order with this index.
    Order(usize),
    /// The line of the aisle with this index.
    Aisle(usize),
    /// The last line: `lb ub`.
    Bounds,
}

/// A number of the first or of the last line.
#[derive(Clone, Copy, Debug, PartialEq, Eq, Structural)]
pub enum Field {
    /// Number of orders.
    O,
    /// Number of items.
    I,
    /// Number of aisles.
    A,
    /// Lower bound on the number of items picked.
    Lb,
    /// Upper bound on the number of items picked.
    Ub,
}

/// Why an instance could not be read.
#[derive(Clone, Copy, Debug, PartialEq, Eq, Structural)]
pub enum ParseError {
    /// The text ended before this line.
    MissingLine(LineKind),
    /// The line ended before this number.
    MissingField(Field),
    /// This number is malformed.
    InvalidField(Field, NumberError),
    /// The count at the start of an order or aisle line is malformed.
    InvalidCount(NumberError),
    /// An item or a quantity of an order or aisle line is malformed.
    InvalidPair(NumberError),
    /// An order or aisle line is blank.
    BlankLine,
    /// The last item of an order or aisle line has no quantity.
    MissingQuantity,
    /// The quantities of the order with this index sum to more than `u32::MAX`.
    TotalOverflow { order: usize },
    /// An order or aisle line holds another number of pairs than it announces.
    PairCountMismatch { expected: usize, found: usize },
}

} // verus!
