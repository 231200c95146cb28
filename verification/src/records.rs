//! The value types shared by every stage of stop ordering.

use vstd::prelude::*;

verus! {

/// Identifies a physical stop.
pub type StopId = u32;

/// Ordinal of a stop within one shape variant, counted from 1.
pub type StopSequence = u32;

/// Identifies one shape variant of a route and direction.
pub type ShapeId = String;

/// A count of services or of passengers.
pub type Quantity = u32;

/// Why a stop order could not be produced.
#[derive(Debug, Clone, Copy, PartialEq, Eq, Structural)]
pub enum SequenceError {
    /// No observation places any stop at the start of a shape variant.
    NoData,
    /// The merge was handed no sequence at all.
    EmptyInput,
    /// The position of a stop that had to be measured is unknown.
    MissingCoordinates,
    /// No shape span starts at the stop being placed.
    MissingSpan,
}

/// One stop of one shape variant, with the number of trips that were seen to
/// visit it at that ordinal.
#[derive(Debug, Clone, PartialEq, Eq)]
pub struct StopSeq {
    /// The stop visited.
    pub stop_id: StopId,
    /// Its ordinal within the shape variant.
    pub stop_sequence: StopSequence,
    /// The shape variant.
    pub shape_id: ShapeId,
    /// How many trips were counted.
    pub qty: Quantity,
}

/// The two ends of one shape variant.
#[derive(Debug, Clone, PartialEq, Eq)]
pub struct FirstLastSeq {
    /// The stop the variant starts at.
    pub first: StopId,
    /// The stop the variant ends at.
    pub last: StopId,
    /// The shape variant.
    pub shape_id: ShapeId,
    /// How many stops the variant has.
    pub len: Quantity,
    /// How many trips were counted.
    pub qty: Quantity,
}

} // verus!
