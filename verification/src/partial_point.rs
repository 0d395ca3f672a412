//! Partial point accumulators.
//!
//! A schema.org point is described by two separate coordinate quads. The
//! accumulator for one point skolemization id records which axes have
//! arrived. Each axis may be set at most once; a second quad for the same
//! axis is a contradiction in the input.

use vstd::prelude::*;

use crate::errors::Axis;
use crate::geom::coord_in_range;

verus! {

/// The accumulated state of one schema.org point, in nanodegrees per axis.
#[derive(Clone, Copy, Debug, PartialEq, Eq, Structural)]
pub enum PartialPoint {
    /// No axis known yet.
    Empty,
    /// Only the longitude (`x`) is known.
    XOnly { x: i128 },
    /// Only the latitude (`y`) is known.
    YOnly { y: i128 },
    /// Both axes are known.
    Complete { x: i128, y: i128 },
}

impl View for PartialPoint {
    type V = PartialPoint;

    open spec fn view(&self) -> PartialPoint {
        *self
    }
}

/// Whether every coordinate the accumulator holds is in range.
pub open spec fn pp_wf(pp: PartialPoint) -> bool {
    match pp {
        PartialPoint::Empty => true,
        PartialPoint::XOnly { x } => coord_in_range(x as int),
        PartialPoint::YOnly { y } => coord_in_range(y as int),
        PartialPoint::Complete { x, y } => coord_in_range(x as int) && coord_in_range(y as int),
    }
}

/// Whether the given axis is already set in the accumulator.
pub open spec fn axis_set(pp: PartialPoint, axis: Axis) -> bool {
    match axis {
        Axis::Longitude => pp is XOnly || pp is Complete,
        Axis::Latitude => pp is YOnly || pp is Complete,
    }
}

/// The accumulator after setting the given axis to `v`, or `None` where
/// that axis was already set.
pub open spec fn set_axis_spec(pp: PartialPoint, axis: Axis, v: i128) -> Option<PartialPoint> {
    match (pp, axis) {
        (PartialPoint::Empty, Axis::Longitude) => Some(PartialPoint::XOnly { x: v }),
        (PartialPoint::Empty, Axis::Latitude) => Some(PartialPoint::YOnly { y: v }),
        (PartialPoint::XOnly { x }, Axis::Latitude) => Some(PartialPoint::Complete { x, y: v }),
        (PartialPoint::YOnly { y }, Axis::Longitude) => Some(PartialPoint::Complete { x: v, y }),
        _ => None,
    }
}

impl PartialPoint {
    /// Set the given axis to `v`, or report that it was already set.
    pub fn set_axis(self, axis: Axis, v: i128) -> (r: Option<PartialPoint>)
        ensures
            r == set_axis_spec(self, axis, v),
    {
        match (self, axis) {
            (PartialPoint::Empty, Axis::Longitude) => Some(PartialPoint::XOnly { x: v }),
            (PartialPoint::Empty, Axis::Latitude) => Some(PartialPoint::YOnly { y: v }),
            (PartialPoint::XOnly { x }, Axis::Latitude) => Some(
                PartialPoint::Complete { x, y: v },
            ),
            (PartialPoint::YOnly { y }, Axis::Longitude) => Some(
                PartialPoint::Complete { x: v, y },
            ),
            _ => None,
        }
    }
}

/// Law: the two axis quads of one point may arrive in either order. From
/// an empty accumulator, setting longitude then latitude and setting
/// latitude then longitude both end in `Complete` with the same pair,
/// and one axis alone ends in the matching one-axis state.
pub proof fn lemma_point_axes_commute(x: i128, y: i128)
    ensures
        set_axis_spec(PartialPoint::Empty, Axis::Longitude, x) == Some(PartialPoint::XOnly { x }),
        set_axis_spec(PartialPoint::Empty, Axis::Latitude, y) == Some(PartialPoint::YOnly { y }),
        set_axis_spec(PartialPoint::XOnly { x }, Axis::Latitude, y) == Some(
            PartialPoint::Complete { x, y },
        ),
        set_axis_spec(PartialPoint::YOnly { y }, Axis::Longitude, x) == Some(
            PartialPoint::Complete { x, y },
        ),
{
}

/// Law: setting an axis that is already set always fails, whatever the
/// rest of the accumulator holds and whatever the new value is.
pub proof fn lemma_duplicate_axis_always_fails(pp: PartialPoint, axis: Axis, v: i128)
    requires
        axis_set(pp, axis),
    ensures
        set_axis_spec(pp, axis, v) is None,
{
}

} // verus!
