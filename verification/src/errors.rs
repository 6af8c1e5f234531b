//! The error taxonomy: every failure a query can surface.
use vstd::prelude::*;

verus! {

/// Why a reload, a conversion pass or a report failed. All of these are
/// recovered at the query boundary; none terminates the process.
#[derive(Clone, PartialEq, Eq, Debug)]
pub enum LedgerError {
    /// A file could not be read or its metadata could not be inspected.
    Io(String),
    /// A file's text is not valid ledger syntax.
    Parse(String),
    /// A chain of file references returned to a file still being resolved.
    RefCycle(String),
    /// Conversion was requested for a posting that carries no price.
    MissingPrice,
    /// A split query named an account absent from the hierarchy.
    NoSuchAccount,
    /// A balance query found no accumulated amount in the display commodity.
    NoSuchCommodity,
    /// An exact result left the range a quantity can carry.
    ArithmeticOverflow,
}

} // verus!
