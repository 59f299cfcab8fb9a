use vstd::prelude::*;

verus! {

/// The errors of the addressing layer.
#[derive(Debug, Clone, PartialEq, Eq)]
pub enum AddressError {
    /// A byte sequence is not the encoding of any valid record address.
    CorruptKey,
    /// A record address breaks its own invariant and has no encoding.
    InvalidThing,
    /// A bare table name held a colon; the text around the first colon.
    TableColonId { table: String, id: String },
    /// A range was attached to a single record.
    RangeOnRecordId,
    /// A range was attached to an object literal.
    RangeOnObject,
    /// A range was attached to an array literal.
    RangeOnArray,
    /// A range was attached to an edge set.
    RangeOnEdges,
}

} // verus!
