//! Vectors of three numbers.

use vstd::prelude::*;
use crate::math::Num;

verus! {

/// A vector of three components.
#[derive(Clone, Copy, Debug)]
pub struct V3 {
    pub x: Num,
    pub y: Num,
    pub z: Num,
}

impl V3 {
    pub open spec fn spec_from_array(a: [Num; 3]) -> V3 {
        V3 { x: a[0], y: a[1], z: a[2] }
    }

    /// The vector whose components are those of `a`, in order.
    pub fn from_array(a: [Num; 3]) -> (v: V3)
        ensures
            v == V3::spec_from_array(a),
    {
        V3 { x: a[0], y: a[1], z: a[2] }
    }

    /// The sum, component by component.
    pub open spec fn spec_add(self, rhs: V3) -> V3 {
        V3 { x: self.x.spec_add(rhs.x), y: self.y.spec_add(rhs.y), z: self.z.spec_add(rhs.z) }
    }

    /// The sum of the two vectors.
    pub fn add(self, rhs: V3) -> (v: V3)
        ensures
            v == self.spec_add(rhs),
    {
        V3 { x: self.x.add(rhs.x), y: self.y.add(rhs.y), z: self.z.add(rhs.z) }
    }

    /// The opposite vector.
    pub open spec fn spec_neg(self) -> V3 {
        V3 { x: self.x.spec_neg(), y: self.y.spec_neg(), z: self.z.spec_neg() }
    }

    /// The opposite of the vector.
    pub fn neg(self) -> (v: V3)
        ensures
            v == self.spec_neg(),
    {
        V3 { x: self.x.neg(), y: self.y.neg(), z: self.z.neg() }
    }

    /// The difference: the sum of the first and the opposite of the second.
    pub open spec fn spec_sub(self, rhs: V3) -> V3 {
        self.spec_add(rhs.spec_neg())
    }

    /// The difference of the two vectors.
    pub fn sub(self, rhs: V3) -> (v: V3)
        ensures
            v == self.spec_sub(rhs),
    {
        self.add(rhs.neg())
    }

    /// The vector with every component multiplied by `k`.
    pub open spec fn spec_scaled(self, k: Num) -> V3 {
        V3 { x: k.spec_mul(self.x), y: k.spec_mul(self.y), z: k.spec_mul(self.z) }
    }

    /// The product of the number `k` and the vector.
    pub fn scaled(self, k: Num) -> (v: V3)
        ensures
            v == self.spec_scaled(k),
    {
        V3 { x: k.mul(self.x), y: k.mul(self.y), z: k.mul(self.z) }
    }
}

/// The sum of the products of the components, added from left to right.
pub open spec fn spec_dot(lhs: V3, rhs: V3) -> Num {
    lhs.x.spec_mul(rhs.x).spec_add(lhs.y.spec_mul(rhs.y)).spec_add(lhs.z.spec_mul(rhs.z))
}

/// The dot product of the two vectors.
pub fn dot(lhs: V3, rhs: V3) -> (n: Num)
    ensures
        n == spec_dot(lhs, rhs),
{
    lhs.x.mul(rhs.x).add(lhs.y.mul(rhs.y)).add(lhs.z.mul(rhs.z))
}

} // verus!
