use vstd::prelude::*;

verus! {

/// A point or an offset in scene units, one integer per axis.
#[derive(Clone, Copy, Debug, PartialEq, Eq, Structural)]
pub struct Vector3 {
    pub x: i32,
    pub y: i32,
    pub z: i32,
}

impl Vector3 {
    pub fn new(x: i32, y: i32, z: i32) -> (r: Vector3)
        ensures
            r == (Vector3 { x, y, z }),
    {
        Vector3 { x, y, z }
    }

    pub open spec fn spec_zero() -> Vector3 {
        Vector3 { x: 0, y: 0, z: 0 }
    }

    pub fn zero() -> (r: Vector3)
        ensures
            r == Vector3::spec_zero(),
    {
        Vector3 { x: 0, y: 0, z: 0 }
    }
}

/// An axis-aligned bounding box.
///
/// `from` is meant to be the smallest corner and `to` the largest one; this is
/// not enforced, a box whose corners are swapped on some axis is carried as it is.
#[derive(Clone, Copy, Debug, PartialEq, Eq, Structural)]
pub struct Dimensions {
    pub from: Vector3,
    pub to: Vector3,
}

/// The two boxes cross on all three axes (strict inequalities: boxes that only
/// touch do not overlap).
pub open spec fn spec_overlap(a: Dimensions, b: Dimensions) -> bool {
    &&& a.from.x < b.to.x && b.from.x < a.to.x
    &&& a.from.y < b.to.y && b.from.y < a.to.y
    &&& a.from.z < b.to.z && b.from.z < a.to.z
}

/// `outer` covers `inner`: its `from` is below and its `to` above, axis by axis.
pub open spec fn contains(outer: Dimensions, inner: Dimensions) -> bool {
    &&& outer.from.x <= inner.from.x && outer.from.y <= inner.from.y && outer.from.z <= inner.from.z
    &&& inner.to.x <= outer.to.x && inner.to.y <= outer.to.y && inner.to.z <= outer.to.z
}

pub open spec fn min_i32(a: i32, b: i32) -> i32 {
    if b < a { b } else { a }
}

pub open spec fn max_i32(a: i32, b: i32) -> i32 {
    if b > a { b } else { a }
}

/// The smallest box covering both: component-wise minimum of the `from`
/// corners and maximum of the `to` corners.
pub open spec fn spec_hull(a: Dimensions, b: Dimensions) -> Dimensions {
    Dimensions {
        from: Vector3 {
            x: min_i32(a.from.x, b.from.x),
            y: min_i32(a.from.y, b.from.y),
            z: min_i32(a.from.z, b.from.z),
        },
        to: Vector3 {
            x: max_i32(a.to.x, b.to.x),
            y: max_i32(a.to.y, b.to.y),
            z: max_i32(a.to.z, b.to.z),
        },
    }
}

/// A box can be moved by `offset` without leaving the range of `i32`.
pub open spec fn offset_fits(d: Dimensions, offset: Vector3) -> bool {
    &&& i32::MIN <= offset.x + d.from.x <= i32::MAX
    &&& i32::MIN <= offset.y + d.from.y <= i32::MAX
    &&& i32::MIN <= offset.z + d.from.z <= i32::MAX
    &&& i32::MIN <= offset.x + d.to.x <= i32::MAX
    &&& i32::MIN <= offset.y + d.to.y <= i32::MAX
    &&& i32::MIN <= offset.z + d.to.z <= i32::MAX
}

/// The box moved by `offset` (translation only).
pub open spec fn spec_offset(d: Dimensions, offset: Vector3) -> Dimensions {
    Dimensions {
        from: Vector3 {
            x: (offset.x + d.from.x) as i32,
            y: (offset.y + d.from.y) as i32,
            z: (offset.z + d.from.z) as i32,
        },
        to: Vector3 {
            x: (offset.x + d.to.x) as i32,
            y: (offset.y + d.to.y) as i32,
            z: (offset.z + d.to.z) as i32,
        },
    }
}

impl Default for Dimensions {
    /// The degenerate box at the origin.
    fn default() -> (r: Dimensions)
        ensures
            r == Dimensions::spec_default(),
    {
        Dimensions { from: Vector3::zero(), to: Vector3::zero() }
    }
}

impl Dimensions {
    pub open spec fn spec_default() -> Dimensions {
        Dimensions { from: Vector3::spec_zero(), to: Vector3::spec_zero() }
    }

    pub fn new(from: Vector3, to: Vector3) -> (r: Dimensions)
        ensures
            r == (Dimensions { from, to }),
    {
        Dimensions { from, to }
    }

    /// Checks if two boxes overlap.
    pub fn overlap(&self, other: &Dimensions) -> (r: bool)
        ensures
            r == spec_overlap(*self, *other),
    {
        self.from.x < other.to.x && other.from.x < self.to.x && self.from.y < other.to.y
            && other.from.y < self.to.y && self.from.z < other.to.z && other.from.z < self.to.z
    }

    /// The smallest box that covers this one and `other`.
    pub fn hull(&self, other: &Dimensions) -> (r: Dimensions)
        ensures
            r == spec_hull(*self, *other),
            contains(r, *self),
            contains(r, *other),
    {
        Dimensions {
            from: Vector3 {
                x: if other.from.x < self.from.x { other.from.x } else { self.from.x },
                y: if other.from.y < self.from.y { other.from.y } else { self.from.y },
                z: if other.from.z < self.from.z { other.from.z } else { self.from.z },
            },
            to: Vector3 {
                x: if other.to.x > self.to.x { other.to.x } else { self.to.x },
                y: if other.to.y > self.to.y { other.to.y } else { self.to.y },
                z: if other.to.z > self.to.z { other.to.z } else { self.to.z },
            },
        }
    }

    /// This box moved by `offset`.
    pub fn offset(&self, offset: &Vector3) -> (r: Dimensions)
        requires
            offset_fits(*self, *offset),
        ensures
            r == spec_offset(*self, *offset),
    {
        Dimensions {
            from: Vector3 {
                x: offset.x + self.from.x,
                y: offset.y + self.from.y,
                z: offset.z + self.from.z,
            },
            to: Vector3 {
                x: offset.x + self.to.x,
                y: offset.y + self.to.y,
                z: offset.z + self.to.z,
            },
        }
    }
}

/// Overlap is symmetric, and a box never overlaps a box that lies wholly
/// beyond it (at or past its boundary) on some axis.
pub proof fn lemma_overlap_symmetric(a: Dimensions, b: Dimensions)
    ensures
        spec_overlap(a, b) == spec_overlap(b, a),
        (b.from.x >= a.to.x || b.to.x <= a.from.x || b.from.y >= a.to.y || b.to.y <= a.from.y
            || b.from.z >= a.to.z || b.to.z <= a.from.z) ==> !spec_overlap(a, b),
{
}

/// A box that covers another overlaps every box that the covered one overlaps:
/// after an update pass, an ancestor's box overlaps whatever a descendant's does.
pub proof fn lemma_overlap_covered(outer: Dimensions, inner: Dimensions, b: Dimensions)
    requires
        contains(outer, inner),
        spec_overlap(inner, b),
    ensures
        spec_overlap(outer, b),
{
}

/// Covering is transitive.
pub proof fn lemma_contains_transitive(a: Dimensions, b: Dimensions, c: Dimensions)
    requires
        contains(a, b),
        contains(b, c),
    ensures
        contains(a, c),
{
}

} // verus!
