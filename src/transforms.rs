use vstd::prelude::*;

use crate::dimensions::Vector3;

verus! {

/// A rotation quaternion `s + x i + y j + z k` with integer components.
///
/// Components are exact integers, not normalised: only rotations whose
/// quaternion has integer components (multiples of quarter and half turns
/// about the axes, scaled) are represented, and composing multiplies norms.
#[derive(Clone, Copy, Debug, PartialEq, Eq, Structural)]
pub struct Quaternion {
    pub s: i32,
    pub x: i32,
    pub y: i32,
    pub z: i32,
}

/// Position, rotation and scale of a node.
#[derive(Clone, Copy, Debug, PartialEq, Eq, Structural)]
pub struct Transform {
    pub position: Vector3,
    pub rotation: Quaternion,
    pub scale: Vector3,
}

pub open spec fn in_i32(v: int) -> bool {
    i32::MIN <= v <= i32::MAX
}

/// The Hamilton product `a * b`, component by component, over the integers.
pub open spec fn qmul_s(a: Quaternion, b: Quaternion) -> int {
    a.s * b.s - a.x * b.x - a.y * b.y - a.z * b.z
}

pub open spec fn qmul_x(a: Quaternion, b: Quaternion) -> int {
    a.s * b.x + a.x * b.s + a.y * b.z - a.z * b.y
}

pub open spec fn qmul_y(a: Quaternion, b: Quaternion) -> int {
    a.s * b.y - a.x * b.z + a.y * b.s + a.z * b.x
}

pub open spec fn qmul_z(a: Quaternion, b: Quaternion) -> int {
    a.s * b.z + a.x * b.y - a.y * b.x + a.z * b.s
}

/// The global transform of a child with local transform `c` under a parent
/// whose global transform is `p`, as exact integers, each of which fits in `i32`:
/// positions add, rotations multiply (parent first), scales multiply axis by axis.
pub open spec fn compose_fits(p: Transform, c: Transform) -> bool {
    &&& in_i32(c.position.x + p.position.x)
    &&& in_i32(c.position.y + p.position.y)
    &&& in_i32(c.position.z + p.position.z)
    &&& in_i32(qmul_s(p.rotation, c.rotation))
    &&& in_i32(qmul_x(p.rotation, c.rotation))
    &&& in_i32(qmul_y(p.rotation, c.rotation))
    &&& in_i32(qmul_z(p.rotation, c.rotation))
    &&& in_i32(c.scale.x * p.scale.x)
    &&& in_i32(c.scale.y * p.scale.y)
    &&& in_i32(c.scale.z * p.scale.z)
}

/// The composition of `p` (parent) and `c` (child), when `compose_fits(p, c)`.
pub open spec fn spec_compose(p: Transform, c: Transform) -> Transform {
    Transform {
        position: Vector3 {
            x: (c.position.x + p.position.x) as i32,
            y: (c.position.y + p.position.y) as i32,
            z: (c.position.z + p.position.z) as i32,
        },
        rotation: Quaternion {
            s: qmul_s(p.rotation, c.rotation) as i32,
            x: qmul_x(p.rotation, c.rotation) as i32,
            y: qmul_y(p.rotation, c.rotation) as i32,
            z: qmul_z(p.rotation, c.rotation) as i32,
        },
        scale: Vector3 {
            x: (c.scale.x * p.scale.x) as i32,
            y: (c.scale.y * p.scale.y) as i32,
            z: (c.scale.z * p.scale.z) as i32,
        },
    }
}

impl Quaternion {
    pub open spec fn spec_identity() -> Quaternion {
        Quaternion { s: 1, x: 0, y: 0, z: 0 }
    }

    pub fn new(s: i32, x: i32, y: i32, z: i32) -> (r: Quaternion)
        ensures
            r == (Quaternion { s, x, y, z }),
    {
        Quaternion { s, x, y, z }
    }

    pub fn identity() -> (r: Quaternion)
        ensures
            r == Quaternion::spec_identity(),
    {
        Quaternion { s: 1, x: 0, y: 0, z: 0 }
    }
}

impl Default for Transform {
    /// The identity transform.
    fn default() -> (r: Transform)
        ensures
            r == Transform::spec_identity(),
    {
        Transform::identity()
    }
}

impl Transform {
    pub open spec fn spec_identity() -> Transform {
        Transform {
            position: Vector3 { x: 0, y: 0, z: 0 },
            rotation: Quaternion::spec_identity(),
            scale: Vector3 { x: 1, y: 1, z: 1 },
        }
    }

    pub fn new(position: Vector3, rotation: Quaternion, scale: Vector3) -> (r: Transform)
        ensures
            r == (Transform { position, rotation, scale }),
    {
        Transform { position, rotation, scale }
    }

    /// Identity at the origin: no offset, no rotation, unit scale.
    pub fn identity() -> (r: Transform)
        ensures
            r == Transform::spec_identity(),
    {
        Transform {
            position: Vector3 { x: 0, y: 0, z: 0 },
            rotation: Quaternion::identity(),
            scale: Vector3 { x: 1, y: 1, z: 1 },
        }
    }

    /// Whether `self.compose(child)` stays within the range of `i32`.
    pub fn compose_fits(&self, child: &Transform) -> (r: bool)
        ensures
            r == compose_fits(*self, *child),
    {
        let p = self;
        let c = child;
        let lo = i32::MIN as i128;
        let hi = i32::MAX as i128;
        let px = c.position.x as i128 + p.position.x as i128;
        let py = c.position.y as i128 + p.position.y as i128;
        let pz = c.position.z as i128 + p.position.z as i128;
        let (qs, qx, qy, qz) = qmul_wide(&p.rotation, &c.rotation);
        proof {
            lemma_product_bound(c.scale.x, p.scale.x);
            lemma_product_bound(c.scale.y, p.scale.y);
            lemma_product_bound(c.scale.z, p.scale.z);
        }
        let sx = c.scale.x as i128 * p.scale.x as i128;
        let sy = c.scale.y as i128 * p.scale.y as i128;
        let sz = c.scale.z as i128 * p.scale.z as i128;
        lo <= px && px <= hi && lo <= py && py <= hi && lo <= pz && pz <= hi && lo <= qs && qs
            <= hi && lo <= qx && qx <= hi && lo <= qy && qy <= hi && lo <= qz && qz <= hi && lo
            <= sx && sx <= hi && lo <= sy && sy <= hi && lo <= sz && sz <= hi
    }

    /// The global transform of a child whose local transform is `child`, where
    /// `self` is the parent's global transform.
    pub fn compose(&self, child: &Transform) -> (r: Transform)
        requires
            compose_fits(*self, *child),
        ensures
            r == spec_compose(*self, *child),
    {
        let p = self;
        let c = child;
        let (qs, qx, qy, qz) = qmul_wide(&p.rotation, &c.rotation);
        Transform {
            position: Vector3 {
                x: c.position.x + p.position.x,
                y: c.position.y + p.position.y,
                z: c.position.z + p.position.z,
            },
            rotation: Quaternion { s: qs as i32, x: qx as i32, y: qy as i32, z: qz as i32 },
            scale: Vector3 {
                x: c.scale.x * p.scale.x,
                y: c.scale.y * p.scale.y,
                z: c.scale.z * p.scale.z,
            },
        }
    }
}

proof fn lemma_product_bound(a: i32, b: i32)
    ensures
        -0x4000_0000_0000_0000 <= a * b <= 0x4000_0000_0000_0000,
{
    assert(-0x4000_0000_0000_0000 <= a * b <= 0x4000_0000_0000_0000) by (nonlinear_arith)
        requires
            i32::MIN <= a <= i32::MAX,
            i32::MIN <= b <= i32::MAX,
    ;
}

/// The Hamilton product computed in `i128`, where no step can overflow.
fn qmul_wide(a: &Quaternion, b: &Quaternion) -> (r: (i128, i128, i128, i128))
    ensures
        r.0 == qmul_s(*a, *b),
        r.1 == qmul_x(*a, *b),
        r.2 == qmul_y(*a, *b),
        r.3 == qmul_z(*a, *b),
{
    proof {
        lemma_product_bound(a.s, b.s);
        lemma_product_bound(a.s, b.x);
        lemma_product_bound(a.s, b.y);
        lemma_product_bound(a.s, b.z);
        lemma_product_bound(a.x, b.s);
        lemma_product_bound(a.x, b.x);
        lemma_product_bound(a.x, b.y);
        lemma_product_bound(a.x, b.z);
        lemma_product_bound(a.y, b.s);
        lemma_product_bound(a.y, b.x);
        lemma_product_bound(a.y, b.y);
        lemma_product_bound(a.y, b.z);
        lemma_product_bound(a.z, b.s);
        lemma_product_bound(a.z, b.x);
        lemma_product_bound(a.z, b.y);
        lemma_product_bound(a.z, b.z);
    }
    let (as_, ax, ay, az) = (a.s as i128, a.x as i128, a.y as i128, a.z as i128);
    let (bs, bx, by_, bz) = (b.s as i128, b.x as i128, b.y as i128, b.z as i128);
    (
        as_ * bs - ax * bx - ay * by_ - az * bz,
        as_ * bx + ax * bs + ay * bz - az * by_,
        as_ * by_ - ax * bz + ay * bs + az * bx,
        as_ * bz + ax * by_ - ay * bx + az * bs,
    )
}

/// Composition rule: positions add, rotations multiply with the parent on the
/// left, scales multiply axis by axis; and the identity transform is a neutral
/// element on either side.
pub proof fn lemma_compose(p: Transform, c: Transform)
    ensures
        compose_fits(p, c) ==> {
            let g = spec_compose(p, c);
            &&& g.position.x == c.position.x + p.position.x
            &&& g.position.y == c.position.y + p.position.y
            &&& g.position.z == c.position.z + p.position.z
            &&& g.rotation.s == qmul_s(p.rotation, c.rotation)
            &&& g.rotation.x == qmul_x(p.rotation, c.rotation)
            &&& g.rotation.y == qmul_y(p.rotation, c.rotation)
            &&& g.rotation.z == qmul_z(p.rotation, c.rotation)
            &&& g.scale.x == c.scale.x * p.scale.x
            &&& g.scale.y == c.scale.y * p.scale.y
            &&& g.scale.z == c.scale.z * p.scale.z
        },
        compose_fits(Transform::spec_identity(), c),
        spec_compose(Transform::spec_identity(), c) == c,
        compose_fits(p, Transform::spec_identity()),
        spec_compose(p, Transform::spec_identity()) == p,
{
}

} // verus!
