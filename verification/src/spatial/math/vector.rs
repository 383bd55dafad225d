//! Three-component vectors.

use vstd::prelude::*;

verus! {

/// A vector of three components of one type.
#[derive(Clone, Copy, Debug, PartialEq, Eq)]
pub struct V3c<T> {
    pub x: T,
    pub y: T,
    pub z: T,
}

impl<T: Copy> V3c<T> {
    /// The vector of the three components.
    pub fn new(x: T, y: T, z: T) -> (v: Self)
        ensures
            v == (V3c { x, y, z }),
    {
        Self { x, y, z }
    }

    /// The vector whose components are all `scale`.
    pub fn unit(scale: T) -> (v: Self)
        ensures
            v == (V3c { x: scale, y: scale, z: scale }),
    {
        Self { x: scale, y: scale, z: scale }
    }
}

/// The smaller of two numbers.
pub open spec fn min_of(a: int, b: int) -> int {
    if a <= b {
        a
    } else {
        b
    }
}

impl V3c<u32> {
    /// Caps each component at `value`, in place, and returns the result.
    pub fn cut_each_component(&mut self, value: &u32) -> (v: Self)
        ensures
            final(self).x == min_of(old(self).x as int, *value as int),
            final(self).y == min_of(old(self).y as int, *value as int),
            final(self).z == min_of(old(self).z as int, *value as int),
            v == *final(self),
    {
        if self.x > *value {
            self.x = *value;
        }
        if self.y > *value {
            self.y = *value;
        }
        if self.z > *value {
            self.z = *value;
        }
        *self
    }

    /// The dot product; the sum has to fit the component type.
    pub fn dot(&self, other: &V3c<u32>) -> (d: u32)
        requires
            self.x * other.x + self.y * other.y + self.z * other.z <= u32::MAX,
        ensures
            d == self.x * other.x + self.y * other.y + self.z * other.z,
    {
        assert(self.x * other.x >= 0 && self.y * other.y >= 0 && self.z * other.z >= 0)
            by (nonlinear_arith);
        self.x * other.x + self.y * other.y + self.z * other.z
    }

    /// The cross product; each product and each difference has to fit the
    /// component type.
    pub fn cross(self, other: V3c<u32>) -> (c: V3c<u32>)
        requires
            self.z * other.y <= self.y * other.z <= u32::MAX,
            self.x * other.z <= self.z * other.x <= u32::MAX,
            self.y * other.x <= self.x * other.y <= u32::MAX,
        ensures
            c.x == self.y * other.z - self.z * other.y,
            c.y == self.z * other.x - self.x * other.z,
            c.z == self.x * other.y - self.y * other.x,
    {
        assert(self.z * other.y >= 0 && self.x * other.z >= 0 && self.y * other.x >= 0)
            by (nonlinear_arith);
        V3c {
            x: self.y * other.z - self.z * other.y,
            y: self.z * other.x - self.x * other.z,
            z: self.x * other.y - self.y * other.x,
        }
    }
}

impl V3c<usize> {
    /// Caps each component at `value`, in place, and returns the result.
    pub fn cut_each_component(&mut self, value: &usize) -> (v: Self)
        ensures
            final(self).x == min_of(old(self).x as int, *value as int),
            final(self).y == min_of(old(self).y as int, *value as int),
            final(self).z == min_of(old(self).z as int, *value as int),
            v == *final(self),
    {
        if self.x > *value {
            self.x = *value;
        }
        if self.y > *value {
            self.y = *value;
        }
        if self.z > *value {
            self.z = *value;
        }
        *self
    }
}

/// Whether the number fits a signed component.
pub open spec fn fits_i32(n: int) -> bool {
    i32::MIN <= n <= i32::MAX
}

impl V3c<u32> {
    /// The sum, component by component; each sum has to fit the component
    /// type.
    pub fn add(self, other: V3c<u32>) -> (sum: V3c<u32>)
        requires
            self.x + other.x <= u32::MAX,
            self.y + other.y <= u32::MAX,
            self.z + other.z <= u32::MAX,
        ensures
            sum.x == self.x + other.x,
            sum.y == self.y + other.y,
            sum.z == self.z + other.z,
    {
        V3c { x: self.x + other.x, y: self.y + other.y, z: self.z + other.z }
    }

    /// The difference, component by component; no component of `other` may
    /// be the larger.
    pub fn sub(self, other: V3c<u32>) -> (difference: V3c<u32>)
        requires
            other.x <= self.x,
            other.y <= self.y,
            other.z <= self.z,
        ensures
            difference.x == self.x - other.x,
            difference.y == self.y - other.y,
            difference.z == self.z - other.z,
    {
        V3c { x: self.x - other.x, y: self.y - other.y, z: self.z - other.z }
    }

    /// Each component times `scalar`; each product has to fit the component
    /// type.
    pub fn mul(self, scalar: u32) -> (product: V3c<u32>)
        requires
            self.x * scalar <= u32::MAX,
            self.y * scalar <= u32::MAX,
            self.z * scalar <= u32::MAX,
        ensures
            product.x == self.x * scalar,
            product.y == self.y * scalar,
            product.z == self.z * scalar,
    {
        assert(self.x * scalar >= 0 && self.y * scalar >= 0 && self.z * scalar >= 0)
            by (nonlinear_arith);
        V3c { x: self.x * scalar, y: self.y * scalar, z: self.z * scalar }
    }

    /// Each component divided by `scalar`, which is not zero.
    pub fn div(self, scalar: u32) -> (quotient: V3c<u32>)
        requires
            scalar != 0,
        ensures
            quotient.x == self.x / scalar,
            quotient.y == self.y / scalar,
            quotient.z == self.z / scalar,
    {
        V3c { x: self.x / scalar, y: self.y / scalar, z: self.z / scalar }
    }
}

impl V3c<i32> {
    /// The sum, component by component; each sum has to fit the component
    /// type.
    pub fn add(self, other: V3c<i32>) -> (sum: V3c<i32>)
        requires
            fits_i32(self.x + other.x),
            fits_i32(self.y + other.y),
            fits_i32(self.z + other.z),
        ensures
            sum.x == self.x + other.x,
            sum.y == self.y + other.y,
            sum.z == self.z + other.z,
    {
        V3c { x: self.x + other.x, y: self.y + other.y, z: self.z + other.z }
    }

    /// The difference, component by component; each difference has to fit
    /// the component type.
    pub fn sub(self, other: V3c<i32>) -> (difference: V3c<i32>)
        requires
            fits_i32(self.x - other.x),
            fits_i32(self.y - other.y),
            fits_i32(self.z - other.z),
        ensures
            difference.x == self.x - other.x,
            difference.y == self.y - other.y,
            difference.z == self.z - other.z,
    {
        V3c { x: self.x - other.x, y: self.y - other.y, z: self.z - other.z }
    }

    /// Each component times `scalar`; each product has to fit the component
    /// type.
    pub fn mul(self, scalar: i32) -> (product: V3c<i32>)
        requires
            fits_i32(self.x * scalar),
            fits_i32(self.y * scalar),
            fits_i32(self.z * scalar),
        ensures
            product.x == self.x * scalar,
            product.y == self.y * scalar,
            product.z == self.z * scalar,
    {
        V3c { x: self.x * scalar, y: self.y * scalar, z: self.z * scalar }
    }

    /// The dot product; each product and each sum on the way has to fit the
    /// component type.
    pub fn dot(&self, other: &V3c<i32>) -> (d: i32)
        requires
            fits_i32(self.x * other.x),
            fits_i32(self.y * other.y),
            fits_i32(self.z * other.z),
            fits_i32(self.x * other.x + self.y * other.y),
            fits_i32(self.x * other.x + self.y * other.y + self.z * other.z),
        ensures
            d == self.x * other.x + self.y * other.y + self.z * other.z,
    {
        self.x * other.x + self.y * other.y + self.z * other.z
    }

    /// The cross product; each product and each difference has to fit the
    /// component type.
    pub fn cross(self, other: V3c<i32>) -> (c: V3c<i32>)
        requires
            fits_i32(self.y * other.z) && fits_i32(self.z * other.y),
            fits_i32(self.z * other.x) && fits_i32(self.x * other.z),
            fits_i32(self.x * other.y) && fits_i32(self.y * other.x),
            fits_i32(self.y * other.z - self.z * other.y),
            fits_i32(self.z * other.x - self.x * other.z),
            fits_i32(self.x * other.y - self.y * other.x),
        ensures
            c.x == self.y * other.z - self.z * other.y,
            c.y == self.z * other.x - self.x * other.z,
            c.z == self.x * other.y - self.y * other.x,
    {
        V3c {
            x: self.y * other.z - self.z * other.y,
            y: self.z * other.x - self.x * other.z,
            z: self.x * other.y - self.y * other.x,
        }
    }
}

} // verus!
