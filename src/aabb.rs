//! Axis-aligned bounding boxes.
//!
//! A coordinate is held as an order key: an integer whose order is the order
//! of the real coordinate it stands for (for an IEEE-754 value, the
//! total-order key of its bit pattern). Union, containment and the choice of
//! the smaller or larger of two coordinates need nothing more than that order.

use vstd::prelude::*;

verus! {

/// A point in space, one order key per axis.
#[derive(Clone, Copy, Debug, PartialEq, Eq, Structural)]
pub struct Point {
    pub x: i64,
    pub y: i64,
    pub z: i64,
}

impl Point {
    /// Coordinate of the point along axis 0, 1 or 2.
    pub open spec fn at(self, axis: int) -> int {
        if axis == 0 {
            self.x as int
        } else if axis == 1 {
            self.y as int
        } else {
            self.z as int
        }
    }

    pub fn new(x: i64, y: i64, z: i64) -> (p: Point)
        ensures
            p.x == x && p.y == y && p.z == z,
    {
        Point { x, y, z }
    }

    /// Coordinate along `axis`.
    pub fn get(&self, axis: usize) -> (c: i64)
        requires
            axis < 3,
        ensures
            c == self.at(axis as int),
    {
        if axis == 0 {
            self.x
        } else if axis == 1 {
            self.y
        } else {
            self.z
        }
    }
}

pub open spec fn min_int(a: int, b: int) -> int {
    if a <= b {
        a
    } else {
        b
    }
}

pub open spec fn max_int(a: int, b: int) -> int {
    if a >= b {
        a
    } else {
        b
    }
}

fn min_key(a: i64, b: i64) -> (r: i64)
    ensures
        r == min_int(a as int, b as int),
{
    if a <= b {
        a
    } else {
        b
    }
}

fn max_key(a: i64, b: i64) -> (r: i64)
    ensures
        r == max_int(a as int, b as int),
{
    if a >= b {
        a
    } else {
        b
    }
}

/// An axis-aligned box spanning `min` to `max` on every axis.
#[derive(Clone, Copy, Debug, PartialEq, Eq, Structural)]
pub struct AABB {
    pub min: Point,
    pub max: Point,
}

impl AABB {
    /// `min` lies at or below `max` on every axis.
    pub open spec fn wf(self) -> bool {
        &&& self.min.x <= self.max.x
        &&& self.min.y <= self.max.y
        &&& self.min.z <= self.max.z
    }

    /// `p` lies within the box, faces included.
    pub open spec fn contains_point(self, p: Point) -> bool {
        &&& self.min.x <= p.x <= self.max.x
        &&& self.min.y <= p.y <= self.max.y
        &&& self.min.z <= p.z <= self.max.z
    }

    /// `p` is one of the eight corners of the box.
    pub open spec fn is_corner(self, p: Point) -> bool {
        &&& (p.x == self.min.x || p.x == self.max.x)
        &&& (p.y == self.min.y || p.y == self.max.y)
        &&& (p.z == self.min.z || p.z == self.max.z)
    }

    /// `other` lies within this box on every axis.
    pub open spec fn encloses(self, other: AABB) -> bool {
        &&& self.min.x <= other.min.x && other.max.x <= self.max.x
        &&& self.min.y <= other.min.y && other.max.y <= self.max.y
        &&& self.min.z <= other.min.z && other.max.z <= self.max.z
    }

    /// The component-wise union of two boxes.
    pub open spec fn union_spec(self, other: AABB) -> AABB {
        AABB {
            min: Point {
                x: min_int(self.min.x as int, other.min.x as int) as i64,
                y: min_int(self.min.y as int, other.min.y as int) as i64,
                z: min_int(self.min.z as int, other.min.z as int) as i64,
            },
            max: Point {
                x: max_int(self.max.x as int, other.max.x as int) as i64,
                y: max_int(self.max.y as int, other.max.y as int) as i64,
                z: max_int(self.max.z as int, other.max.z as int) as i64,
            },
        }
    }

    pub fn new(min: Point, max: Point) -> (b: AABB)
        ensures
            b.min == min && b.max == max,
    {
        AABB { min, max }
    }

    /// The same box with `min` and `max` exchanged on every axis where they
    /// were inverted.
    pub open spec fn normalized_spec(self) -> AABB {
        AABB {
            min: Point {
                x: min_int(self.min.x as int, self.max.x as int) as i64,
                y: min_int(self.min.y as int, self.max.y as int) as i64,
                z: min_int(self.min.z as int, self.max.z as int) as i64,
            },
            max: Point {
                x: max_int(self.min.x as int, self.max.x as int) as i64,
                y: max_int(self.min.y as int, self.max.y as int) as i64,
                z: max_int(self.min.z as int, self.max.z as int) as i64,
            },
        }
    }

    /// Puts the corners of the box in order on every axis.
    pub fn normalized(&self) -> (b: AABB)
        ensures
            b == self.normalized_spec(),
            b.wf(),
            b.min.x == min_int(self.min.x as int, self.max.x as int),
            b.min.y == min_int(self.min.y as int, self.max.y as int),
            b.min.z == min_int(self.min.z as int, self.max.z as int),
            b.max.x == max_int(self.min.x as int, self.max.x as int),
            b.max.y == max_int(self.min.y as int, self.max.y as int),
            b.max.z == max_int(self.min.z as int, self.max.z as int),
    {
        AABB {
            min: Point {
                x: min_key(self.min.x, self.max.x),
                y: min_key(self.min.y, self.max.y),
                z: min_key(self.min.z, self.max.z),
            },
            max: Point {
                x: max_key(self.min.x, self.max.x),
                y: max_key(self.min.y, self.max.y),
                z: max_key(self.min.z, self.max.z),
            },
        }
    }

    /// The smallest box holding both boxes: component-wise minimum of the
    /// minimums and maximum of the maximums.
    pub fn union(&self, other: &AABB) -> (u: AABB)
        ensures
            u == self.union_spec(*other),
            forall|a: int|
                0 <= a < 3 ==> #[trigger] u.min.at(a) == min_int(self.min.at(a), other.min.at(a))
                    && u.max.at(a) == max_int(self.max.at(a), other.max.at(a)),
    {
        AABB {
            min: Point {
                x: min_key(self.min.x, other.min.x),
                y: min_key(self.min.y, other.min.y),
                z: min_key(self.min.z, other.min.z),
            },
            max: Point {
                x: max_key(self.max.x, other.max.x),
                y: max_key(self.max.y, other.max.y),
                z: max_key(self.max.z, other.max.z),
            },
        }
    }
}

/// The union of two boxes holds every corner of each, and any box that holds
/// every corner of both holds the union: along each axis it is the tightest
/// interval with that property.
pub proof fn lemma_union_tightest(a: AABB, b: AABB, c: AABB)
    requires
        a.wf(),
        b.wf(),
    ensures
        a.union_spec(b).wf(),
        forall|p: Point| #[trigger] a.is_corner(p) ==> a.union_spec(b).contains_point(p),
        forall|p: Point| #[trigger] b.is_corner(p) ==> a.union_spec(b).contains_point(p),
        a.union_spec(b).encloses(a),
        a.union_spec(b).encloses(b),
        (forall|p: Point| #[trigger] a.is_corner(p) ==> c.contains_point(p)) && (forall|p: Point|
            #[trigger] b.is_corner(p) ==> c.contains_point(p)) ==> c.encloses(a.union_spec(b)),
{
    if (forall|p: Point| #[trigger] a.is_corner(p) ==> c.contains_point(p)) && (forall|p: Point|
        #[trigger] b.is_corner(p) ==> c.contains_point(p)) {
        assert(a.is_corner(a.min) && a.is_corner(a.max));
        assert(b.is_corner(b.min) && b.is_corner(b.max));
    }
}

} // verus!
