//! The axis-aligned bounding rectangle of a spatial tree node, and the
//! least squared distance from a coordinate to it.

use vstd::prelude::*;

use crate::coordinates::Coordinate;
use crate::coordinates::FixedLatitude;
use crate::coordinates::FixedLongitude;
use crate::coordinates::spec_squared_distance;
use crate::coordinates::squared_euclidian_distance;

verus! {

/// An axis-aligned rectangle in fixed-point coordinates.
#[derive(Copy, Clone, Debug, PartialEq, Eq, Structural)]
pub struct RectangleInt2D {
    pub min_lon: i32,
    pub max_lon: i32,
    pub min_lat: i32,
    pub max_lat: i32,
}

impl RectangleInt2D {
    /// A rectangle with its minima at or below its maxima.
    pub open spec fn wf(self) -> bool {
        self.min_lon <= self.max_lon && self.min_lat <= self.max_lat
    }

    /// Whether the rectangle contains the coordinate, borders included.
    pub open spec fn spec_contains(self, c: Coordinate) -> bool {
        &&& self.min_lon <= c.longitude.0 <= self.max_lon
        &&& self.min_lat <= c.latitude.0 <= self.max_lat
    }

    /// The point of the rectangle nearest to `c`: each axis clamped into
    /// the rectangle's range.
    pub open spec fn clamped(self, c: Coordinate) -> Coordinate {
        Coordinate {
            longitude: FixedLongitude(
                if c.longitude.0 < self.min_lon {
                    self.min_lon
                } else if c.longitude.0 > self.max_lon {
                    self.max_lon
                } else {
                    c.longitude.0
                },
            ),
            latitude: FixedLatitude(
                if c.latitude.0 < self.min_lat {
                    self.min_lat
                } else if c.latitude.0 > self.max_lat {
                    self.max_lat
                } else {
                    c.latitude.0
                },
            ),
        }
    }

    /// The western border.
    pub fn min_longitude(&self) -> (r: FixedLongitude)
        ensures
            r.0 == self.min_lon,
    {
        FixedLongitude(self.min_lon)
    }

    /// The eastern border.
    pub fn max_longitude(&self) -> (r: FixedLongitude)
        ensures
            r.0 == self.max_lon,
    {
        FixedLongitude(self.max_lon)
    }

    /// The southern border.
    pub fn min_latitude(&self) -> (r: FixedLatitude)
        ensures
            r.0 == self.min_lat,
    {
        FixedLatitude(self.min_lat)
    }

    /// The northern border.
    pub fn max_latitude(&self) -> (r: FixedLatitude)
        ensures
            r.0 == self.max_lat,
    {
        FixedLatitude(self.max_lat)
    }

    /// Whether the rectangle contains the coordinate.
    pub fn contains(&self, coordinate: &Coordinate) -> (r: bool)
        ensures
            r == self.spec_contains(*coordinate),
    {
        let lons_contained = coordinate.longitude.0 >= self.min_lon && coordinate.longitude.0
            <= self.max_lon;
        let lats_contained = coordinate.latitude.0 >= self.min_lat && coordinate.latitude.0
            <= self.max_lat;
        lons_contained && lats_contained
    }

    /// The squared distance from `coordinate` to the nearest point of the
    /// rectangle: zero inside, otherwise the squared distance to the
    /// nearest border point or corner, assuming a flat plane.
    pub fn get_min_squared_dist(&self, coordinate: &Coordinate) -> (r: u64)
        requires
            self.wf(),
            spec_squared_distance(*coordinate, self.clamped(*coordinate)) <= i64::MAX,
        ensures
            r == spec_squared_distance(*coordinate, self.clamped(*coordinate)),
    {
        if self.contains(coordinate) {
            proof {
                assert(self.clamped(*coordinate) == *coordinate);
                assert(spec_squared_distance(*coordinate, *coordinate) == 0) by (nonlinear_arith);
            }
            return 0;
        }
        let north = coordinate.latitude.0 > self.max_lat;
        let south = coordinate.latitude.0 < self.min_lat;
        let east = coordinate.longitude.0 > self.max_lon;
        let west = coordinate.longitude.0 < self.min_lon;

        let nearest = Coordinate {
            longitude: if east {
                FixedLongitude(self.max_lon)
            } else if west {
                FixedLongitude(self.min_lon)
            } else {
                coordinate.longitude
            },
            latitude: if north {
                FixedLatitude(self.max_lat)
            } else if south {
                FixedLatitude(self.min_lat)
            } else {
                coordinate.latitude
            },
        };
        proof {
            assert(nearest == self.clamped(*coordinate));
        }
        squared_euclidian_distance(coordinate, &nearest)
    }

    /// The clamped point really is nearest: no point of the rectangle is
    /// closer to `c` than the per-axis clamp.
    pub proof fn lemma_clamped_is_nearest(self, c: Coordinate, p: Coordinate)
        requires
            self.wf(),
            self.spec_contains(p),
        ensures
            spec_squared_distance(c, p) >= spec_squared_distance(c, self.clamped(c)),
    {
        let q = self.clamped(c);
        assert((c.longitude.0 - p.longitude.0) * (c.longitude.0 - p.longitude.0) >= (c.longitude.0
            - q.longitude.0) * (c.longitude.0 - q.longitude.0)) by (nonlinear_arith)
            requires
                self.min_lon <= p.longitude.0 <= self.max_lon,
                q.longitude.0 == if c.longitude.0 < self.min_lon {
                    self.min_lon
                } else if c.longitude.0 > self.max_lon {
                    self.max_lon
                } else {
                    c.longitude.0
                },
        ;
        assert((c.latitude.0 - p.latitude.0) * (c.latitude.0 - p.latitude.0) >= (c.latitude.0
            - q.latitude.0) * (c.latitude.0 - q.latitude.0)) by (nonlinear_arith)
            requires
                self.min_lat <= p.latitude.0 <= self.max_lat,
                q.latitude.0 == if c.latitude.0 < self.min_lat {
                    self.min_lat
                } else if c.latitude.0 > self.max_lat {
                    self.max_lat
                } else {
                    c.latitude.0
                },
        ;
    }
}

} // verus!
