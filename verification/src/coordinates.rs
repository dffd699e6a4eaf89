//! Fixed-point geographic coordinates: degrees scaled by a million, stored
//! as 32-bit integers.

use vstd::prelude::*;

verus! {

/// A longitude in millionths of a degree.
#[derive(Copy, Clone, Debug, Eq, Ord, PartialEq, PartialOrd, Structural)]
pub struct FixedLongitude(pub i32);

/// A latitude in millionths of a degree.
#[derive(Copy, Clone, Debug, Eq, Ord, PartialEq, PartialOrd, Structural)]
pub struct FixedLatitude(pub i32);

/// A fixed-point coordinate pair.
#[derive(Copy, Clone, Debug, Eq, Ord, PartialEq, PartialOrd, Structural)]
pub struct Coordinate {
    pub longitude: FixedLongitude,
    pub latitude: FixedLatitude,
}

/// The mathematical squared Euclidean distance between two coordinates,
/// treating the fixed-point plane as flat.
pub open spec fn spec_squared_distance(lhs: Coordinate, rhs: Coordinate) -> int {
    let dlon = lhs.longitude.0 - rhs.longitude.0;
    let dlat = lhs.latitude.0 - rhs.latitude.0;
    dlon * dlon + dlat * dlat
}

/// The squared Euclidean distance between two coordinates, assuming a flat
/// plane.  The bound keeps the 64-bit arithmetic exact; any two coordinates
/// within the geographic fixed-point range satisfy it.
pub fn squared_euclidian_distance(lhs: &Coordinate, rhs: &Coordinate) -> (r: u64)
    requires
        spec_squared_distance(*lhs, *rhs) <= i64::MAX,
    ensures
        r == spec_squared_distance(*lhs, *rhs),
{
    let delta_longitude: i64 = lhs.longitude.0 as i64 - rhs.longitude.0 as i64;
    let delta_latitude: i64 = lhs.latitude.0 as i64 - rhs.latitude.0 as i64;
    proof {
        assert(delta_longitude * delta_longitude >= 0 && delta_latitude * delta_latitude >= 0)
            by (nonlinear_arith);
    }
    let squared_longitude = delta_longitude * delta_longitude;
    let squared_latitude = delta_latitude * delta_latitude;
    (squared_latitude + squared_longitude) as u64
}

} // verus!
