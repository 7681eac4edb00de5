use std::ops::{Add, Div, Mul, Sub};
use vstd::prelude::*;
use vstd::std_specs::ops::{AddSpec, AddSpecImpl, DivSpecImpl, MulSpecImpl, SubSpec, SubSpecImpl};

verus! {

/// A vector of three 32-bit signed integer coordinates.
#[derive(Clone, Copy)]
pub struct Ivec3 {
    pub x: i32,
    pub y: i32,
    pub z: i32,
}

/// Whether `v` lies in the range of `i32`.
pub open spec fn fits_i32(v: int) -> bool {
    i32::MIN <= v <= i32::MAX
}

/// The minimum of two integers.
pub open spec fn min_int(a: int, b: int) -> int {
    if a <= b { a } else { b }
}

/// The maximum of two integers.
pub open spec fn max_int(a: int, b: int) -> int {
    if a <= b { b } else { a }
}

/// The absolute value of an integer.
pub open spec fn abs_int(a: int) -> int {
    if a < 0 { -a } else { a }
}

/// Integer division rounded toward zero, as Rust's `/` computes it.
pub open spec fn div_trunc(a: int, b: int) -> int {
    if a >= 0 {
        a / b
    } else {
        -((-a) / b)
    }
}

/// Whether `a / b` is defined and representable for 32-bit signed integers.
pub open spec fn div_ok_i32(a: i32, b: i32) -> bool {
    b != 0 && !(a == i32::MIN && b == -1)
}

impl Ivec3 {
    /// Whether the component-wise sum of `self` and `o` fits in `i32`.
    pub open spec fn add_ok(self, o: Ivec3) -> bool {
        fits_i32(self.x + o.x) && fits_i32(self.y + o.y) && fits_i32(self.z + o.z)
    }

    /// Whether the component-wise difference of `self` and `o` fits in `i32`.
    pub open spec fn sub_ok(self, o: Ivec3) -> bool {
        fits_i32(self.x - o.x) && fits_i32(self.y - o.y) && fits_i32(self.z - o.z)
    }

    /// Whether the component-wise product of `self` and `o` fits in `i32`.
    pub open spec fn mul_ok(self, o: Ivec3) -> bool {
        fits_i32(self.x * o.x) && fits_i32(self.y * o.y) && fits_i32(self.z * o.z)
    }

    /// Whether the component-wise quotient of `self` and `o` is defined in `i32`.
    pub open spec fn div_ok(self, o: Ivec3) -> bool {
        div_ok_i32(self.x, o.x) && div_ok_i32(self.y, o.y) && div_ok_i32(self.z, o.z)
    }

    /// Whether every product and difference of the cross product fits in `i32`.
    pub open spec fn cross_ok(self, o: Ivec3) -> bool {
        &&& fits_i32(self.y * o.z) && fits_i32(self.z * o.y) && fits_i32(self.y * o.z - self.z * o.y)
        &&& fits_i32(self.z * o.x) && fits_i32(self.x * o.z) && fits_i32(self.z * o.x - self.x * o.z)
        &&& fits_i32(self.x * o.y) && fits_i32(self.y * o.x) && fits_i32(self.x * o.y - self.y * o.x)
    }

    /// The zero vector.
    pub fn new() -> (r: Ivec3)
        ensures
            r.x == 0 && r.y == 0 && r.z == 0,
    {
        Ivec3 { x: 0, y: 0, z: 0 }
    }

    /// The cross product of `self` and `other`.
    pub fn cross(self, other: Self) -> (r: Ivec3)
        requires
            self.cross_ok(other),
        ensures
            r.x == self.y * other.z - self.z * other.y,
            r.y == self.z * other.x - self.x * other.z,
            r.z == self.x * other.y - self.y * other.x,
    {
        Ivec3 {
            x: self.y * other.z - self.z * other.y,
            y: self.z * other.x - self.x * other.z,
            z: self.x * other.y - self.y * other.x,
        }
    }

    /// The component-wise minimum of `self` and `other`.
    pub fn min(self, other: Self) -> (r: Ivec3)
        ensures
            r.x == min_int(self.x as int, other.x as int),
            r.y == min_int(self.y as int, other.y as int),
            r.z == min_int(self.z as int, other.z as int),
    {
        Ivec3 { x: self.x.min(other.x), y: self.y.min(other.y), z: self.z.min(other.z) }
    }

    /// The component-wise maximum of `self` and `other`.
    pub fn max(self, other: Self) -> (r: Ivec3)
        ensures
            r.x == max_int(self.x as int, other.x as int),
            r.y == max_int(self.y as int, other.y as int),
            r.z == max_int(self.z as int, other.z as int),
    {
        Ivec3 { x: self.x.max(other.x), y: self.y.max(other.y), z: self.z.max(other.z) }
    }

    /// The component-wise absolute value; no component may be `i32::MIN`.
    pub fn abs(self) -> (r: Ivec3)
        requires
            self.x != i32::MIN && self.y != i32::MIN && self.z != i32::MIN,
        ensures
            r.x == abs_int(self.x as int),
            r.y == abs_int(self.y as int),
            r.z == abs_int(self.z as int),
    {
        Ivec3 { x: abs_i32(self.x), y: abs_i32(self.y), z: abs_i32(self.z) }
    }

    /// Adds `other` to `self` component-wise.
    pub fn add_assign(&mut self, other: Self)
        requires
            old(self).add_ok(other),
        ensures
            final(self).x == old(self).x + other.x,
            final(self).y == old(self).y + other.y,
            final(self).z == old(self).z + other.z,
    {
        self.x = self.x + other.x;
        self.y = self.y + other.y;
        self.z = self.z + other.z;
    }

    /// Subtracts `other` from `self` component-wise.
    pub fn sub_assign(&mut self, other: Self)
        requires
            old(self).sub_ok(other),
        ensures
            final(self).x == old(self).x - other.x,
            final(self).y == old(self).y - other.y,
            final(self).z == old(self).z - other.z,
    {
        self.x = self.x - other.x;
        self.y = self.y - other.y;
        self.z = self.z - other.z;
    }

    /// Multiplies `self` by `other` component-wise.
    pub fn mul_assign(&mut self, other: Self)
        requires
            old(self).mul_ok(other),
        ensures
            final(self).x == old(self).x * other.x,
            final(self).y == old(self).y * other.y,
            final(self).z == old(self).z * other.z,
    {
        self.x = self.x * other.x;
        self.y = self.y * other.y;
        self.z = self.z * other.z;
    }

    /// Divides `self` by `other` component-wise, rounding toward zero.
    pub fn div_assign(&mut self, other: Self)
        requires
            old(self).div_ok(other),
        ensures
            final(self).x == div_trunc(old(self).x as int, other.x as int),
            final(self).y == div_trunc(old(self).y as int, other.y as int),
            final(self).z == div_trunc(old(self).z as int, other.z as int),
    {
        self.x = div_i32(self.x, other.x);
        self.y = div_i32(self.y, other.y);
        self.z = div_i32(self.z, other.z);
    }
}

/// Subtracting `b` undoes adding `b`.
pub proof fn lemma_sub_undoes_add(a: Ivec3, b: Ivec3)
    requires
        a.add_ok(b),
    ensures
        <Ivec3 as AddSpec>::add_spec(a, b).sub_ok(b),
        <Ivec3 as SubSpec>::sub_spec(<Ivec3 as AddSpec>::add_spec(a, b), b) == a,
{
}

fn abs_i32(a: i32) -> (r: i32)
    requires
        a != i32::MIN,
    ensures
        r == abs_int(a as int),
{
    if a < 0 { -a } else { a }
}

fn div_i32(a: i32, b: i32) -> (r: i32)
    requires
        div_ok_i32(a, b),
    ensures
        r == div_trunc(a as int, b as int),
{
    proof {
        let (ai, bi) = (a as int, b as int);
        if ai >= 0 {
            assert(-ai <= ai / bi <= ai) by (nonlinear_arith)
                requires ai >= 0, bi != 0;
        } else {
            assert(-(-ai) <= (-ai) / bi <= -ai) by (nonlinear_arith)
                requires ai < 0, bi != 0;
            if bi != 1 && bi != -1 {
                assert(-(-ai) < (-ai) / bi < -ai) by (nonlinear_arith)
                    requires ai < 0, bi != 0, bi != 1, bi != -1;
            }
        }
    }
    a.div(b)
}

impl Add for Ivec3 {
    type Output = Self;

    fn add(self, other: Self) -> (r: Self::Output) {
        Ivec3 { x: self.x + other.x, y: self.y + other.y, z: self.z + other.z }
    }
}

impl AddSpecImpl for Ivec3 {
    open spec fn obeys_add_spec() -> bool {
        true
    }

    open spec fn add_req(self, rhs: Ivec3) -> bool {
        self.add_ok(rhs)
    }

    open spec fn add_spec(self, rhs: Ivec3) -> Ivec3 {
        Ivec3 { x: (self.x + rhs.x) as i32, y: (self.y + rhs.y) as i32, z: (self.z + rhs.z) as i32 }
    }
}

impl Sub for Ivec3 {
    type Output = Self;

    fn sub(self, other: Self) -> (r: Self::Output) {
        Ivec3 { x: self.x - other.x, y: self.y - other.y, z: self.z - other.z }
    }
}

impl SubSpecImpl for Ivec3 {
    open spec fn obeys_sub_spec() -> bool {
        true
    }

    open spec fn sub_req(self, rhs: Ivec3) -> bool {
        self.sub_ok(rhs)
    }

    open spec fn sub_spec(self, rhs: Ivec3) -> Ivec3 {
        Ivec3 { x: (self.x - rhs.x) as i32, y: (self.y - rhs.y) as i32, z: (self.z - rhs.z) as i32 }
    }
}

impl Mul for Ivec3 {
    type Output = Self;

    fn mul(self, other: Self) -> (r: Self::Output) {
        Ivec3 { x: self.x * other.x, y: self.y * other.y, z: self.z * other.z }
    }
}

impl MulSpecImpl for Ivec3 {
    open spec fn obeys_mul_spec() -> bool {
        true
    }

    open spec fn mul_req(self, rhs: Ivec3) -> bool {
        self.mul_ok(rhs)
    }

    open spec fn mul_spec(self, rhs: Ivec3) -> Ivec3 {
        Ivec3 { x: (self.x * rhs.x) as i32, y: (self.y * rhs.y) as i32, z: (self.z * rhs.z) as i32 }
    }
}

impl Div for Ivec3 {
    type Output = Self;

    fn div(self, other: Self) -> (r: Self::Output) {
        Ivec3 { x: div_i32(self.x, other.x), y: div_i32(self.y, other.y), z: div_i32(self.z, other.z) }
    }
}

impl DivSpecImpl for Ivec3 {
    open spec fn obeys_div_spec() -> bool {
        true
    }

    open spec fn div_req(self, rhs: Ivec3) -> bool {
        self.div_ok(rhs)
    }

    open spec fn div_spec(self, rhs: Ivec3) -> Ivec3 {
        Ivec3 {
            x: div_trunc(self.x as int, rhs.x as int) as i32,
            y: div_trunc(self.y as int, rhs.y as int) as i32,
            z: div_trunc(self.z as int, rhs.z as int) as i32,
        }
    }
}

} // verus!
