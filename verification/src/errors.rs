//! Errors raised while a shard is processed.
//!
//! Every kind aborts the shard it arose in and carries the identifiers
//! needed to diagnose it; none is swallowed.

use vstd::prelude::*;

use crate::geom::{GeoPoint, GeoValue, GeoView};

verus! {

/// The axis a schema.org coordinate quad sets.
#[derive(Clone, Copy, Debug, PartialEq, Eq, Structural)]
pub enum Axis {
    /// Sets the `y` coordinate.
    Latitude,
    /// Sets the `x` coordinate.
    Longitude,
}

/// Mathematical model of a shard error.
pub enum ErrorView {
    MalformedGeometry { literal: Seq<char> },
    MalformedNumber { literal: Seq<char> },
    DuplicateCoordinate { skolem_id: Seq<char>, axis: Axis },
    IncompletePoint { pid: Seq<char>, skolem_id: Seq<char> },
    DanglingGeometryLink { pid: Seq<char>, skolem_id: Seq<char> },
    MissingPointTarget { pid: Seq<char>, skolem_id: Seq<char> },
    GeometryConflict { pid: Seq<char>, geometry: GeoView, point: GeoPoint },
}

/// An error that aborts the processing of one shard.
#[derive(Clone, Debug, PartialEq)]
pub enum TriplesError {
    /// A well-known-text literal did not parse.
    MalformedGeometry { literal: String },
    /// A coordinate literal did not parse as a number.
    MalformedNumber { literal: String },
    /// The same axis was set twice for one point skolemization id.
    DuplicateCoordinate { skolem_id: String, axis: Axis },
    /// A point accumulator was found with only one axis known.
    IncompletePoint { pid: String, skolem_id: String },
    /// A feature links to a well-known-text geometry that was never defined.
    DanglingGeometryLink { pid: String, skolem_id: String },
    /// A feature links to point coordinates that were never supplied.
    MissingPointTarget { pid: String, skolem_id: String },
    /// The two geometry encodings of a feature disagree beyond tolerance.
    GeometryConflict { pid: String, geometry: GeoValue, point: GeoPoint },
}

impl View for TriplesError {
    type V = ErrorView;

    open spec fn view(&self) -> ErrorView {
        match self {
            TriplesError::MalformedGeometry { literal } => ErrorView::MalformedGeometry {
                literal: literal@,
            },
            TriplesError::MalformedNumber { literal } => ErrorView::MalformedNumber {
                literal: literal@,
            },
            TriplesError::DuplicateCoordinate { skolem_id, axis } => ErrorView::DuplicateCoordinate {
                skolem_id: skolem_id@,
                axis: *axis,
            },
            TriplesError::IncompletePoint { pid, skolem_id } => ErrorView::IncompletePoint {
                pid: pid@,
                skolem_id: skolem_id@,
            },
            TriplesError::DanglingGeometryLink { pid, skolem_id } => ErrorView::DanglingGeometryLink {
                pid: pid@,
                skolem_id: skolem_id@,
            },
            TriplesError::MissingPointTarget { pid, skolem_id } => ErrorView::MissingPointTarget {
                pid: pid@,
                skolem_id: skolem_id@,
            },
            TriplesError::GeometryConflict { pid, geometry, point } => ErrorView::GeometryConflict {
                pid: pid@,
                geometry: geometry@,
                point: *point,
            },
        }
    }
}

/// The kind of a shard error, without its context fields.
#[derive(Clone, Copy, Debug, PartialEq, Eq, Structural)]
pub enum ErrorKind {
    MalformedGeometry,
    MalformedNumber,
    DuplicateCoordinate,
    IncompletePoint,
    DanglingGeometryLink,
    MissingPointTarget,
    GeometryConflict,
}

/// The kind of an error model.
pub open spec fn kind_of(e: ErrorView) -> ErrorKind {
    match e {
        ErrorView::MalformedGeometry { .. } => ErrorKind::MalformedGeometry,
        ErrorView::MalformedNumber { .. } => ErrorKind::MalformedNumber,
        ErrorView::DuplicateCoordinate { .. } => ErrorKind::DuplicateCoordinate,
        ErrorView::IncompletePoint { .. } => ErrorKind::IncompletePoint,
        ErrorView::DanglingGeometryLink { .. } => ErrorKind::DanglingGeometryLink,
        ErrorView::MissingPointTarget { .. } => ErrorKind::MissingPointTarget,
        ErrorView::GeometryConflict { .. } => ErrorKind::GeometryConflict,
    }
}

impl TriplesError {
    /// The kind of this error.
    pub fn kind(&self) -> (k: ErrorKind)
        ensures
            k == kind_of(self@),
    {
        match self {
            TriplesError::MalformedGeometry { .. } => ErrorKind::MalformedGeometry,
            TriplesError::MalformedNumber { .. } => ErrorKind::MalformedNumber,
            TriplesError::DuplicateCoordinate { .. } => ErrorKind::DuplicateCoordinate,
            TriplesError::IncompletePoint { .. } => ErrorKind::IncompletePoint,
            TriplesError::DanglingGeometryLink { .. } => ErrorKind::DanglingGeometryLink,
            TriplesError::MissingPointTarget { .. } => ErrorKind::MissingPointTarget,
            TriplesError::GeometryConflict { .. } => ErrorKind::GeometryConflict,
        }
    }
}

} // verus!
