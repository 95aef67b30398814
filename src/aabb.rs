use vstd::prelude::*;

verus! {

/// A point whose coordinates are held as order keys.
///
/// A key compares with another key as the coordinate it stands for compares
/// with the other coordinate, so minima and maxima of keys are the keys of the
/// minima and maxima.
#[derive(Clone, Copy, Debug, PartialEq, Eq, Structural)]
pub struct Point3 {
    pub x: i64,
    pub y: i64,
    pub z: i64,
}

impl Point3 {
    pub fn new(x: i64, y: i64, z: i64) -> (r: Point3)
        ensures
            r.x == x,
            r.y == y,
            r.z == z,
    {
        Point3 { x, y, z }
    }

    /// The key along one of the three axes (0, 1, 2).
    pub open spec fn spec_coord(&self, axis: int) -> i64 {
        if axis == 0 {
            self.x
        } else if axis == 1 {
            self.y
        } else {
            self.z
        }
    }

    pub fn coord(&self, axis: usize) -> (r: i64)
        requires
            axis < 3,
        ensures
            r == self.spec_coord(axis as int),
    {
        if axis == 0 {
            self.x
        } else if axis == 1 {
            self.y
        } else {
            self.z
        }
    }

    /// Every coordinate of `self` is at most the same coordinate of `o`.
    pub open spec fn le(&self, o: Point3) -> bool {
        self.x <= o.x && self.y <= o.y && self.z <= o.z
    }
}

pub open spec fn min_i64(a: i64, b: i64) -> i64 {
    if a <= b {
        a
    } else {
        b
    }
}

pub open spec fn max_i64(a: i64, b: i64) -> i64 {
    if a >= b {
        a
    } else {
        b
    }
}

/// Axis-aligned bounding box, given by its minimum and maximum corners.
#[derive(Clone, Copy, Debug, PartialEq, Eq, Structural)]
pub struct AABB {
    pub min: Point3,
    pub max: Point3,
}

impl AABB {
    /// On every axis the minimum does not exceed the maximum.
    pub open spec fn wf(&self) -> bool {
        self.min.le(self.max)
    }

    /// `o` lies inside `self`.
    pub open spec fn contains(&self, o: AABB) -> bool {
        self.min.le(o.min) && o.max.le(self.max)
    }

    pub fn new(min: Point3, max: Point3) -> (r: AABB)
        requires
            min.le(max),
        ensures
            r.min == min,
            r.max == max,
            r.wf(),
    {
        AABB { min, max }
    }
}

/// The smallest box that holds both `a` and `b`: component-wise minimum of the
/// minima, maximum of the maxima.
pub open spec fn spec_union(a: AABB, b: AABB) -> AABB {
    AABB {
        min: Point3 {
            x: min_i64(a.min.x, b.min.x),
            y: min_i64(a.min.y, b.min.y),
            z: min_i64(a.min.z, b.min.z),
        },
        max: Point3 {
            x: max_i64(a.max.x, b.max.x),
            y: max_i64(a.max.y, b.max.y),
            z: max_i64(a.max.z, b.max.z),
        },
    }
}

fn min_key(a: i64, b: i64) -> (r: i64)
    ensures
        r == min_i64(a, b),
{
    if a <= b {
        a
    } else {
        b
    }
}

fn max_key(a: i64, b: i64) -> (r: i64)
    ensures
        r == max_i64(a, b),
{
    if a >= b {
        a
    } else {
        b
    }
}

/// The union of two boxes.
pub fn surrounding_box(box0: &AABB, box1: &AABB) -> (r: AABB)
    ensures
        r == spec_union(*box0, *box1),
        box0.wf() && box1.wf() ==> r.wf(),
{
    let small = Point3::new(
        min_key(box0.min.x, box1.min.x),
        min_key(box0.min.y, box1.min.y),
        min_key(box0.min.z, box1.min.z),
    );
    let big = Point3::new(
        max_key(box0.max.x, box1.max.x),
        max_key(box0.max.y, box1.max.y),
        max_key(box0.max.z, box1.max.z),
    );
    AABB { min: small, max: big }
}

/// The union of two boxes holds both of them, and does not depend on the
/// order in which they are given.
pub proof fn lemma_union_contains_both_and_commutes(a: AABB, b: AABB)
    ensures
        spec_union(a, b).contains(a),
        spec_union(a, b).contains(b),
        spec_union(a, b) == spec_union(b, a),
        a.wf() && b.wf() ==> spec_union(a, b).wf(),
{
}

} // verus!
