use vstd::prelude::*;

verus! {

/// A position in space, each coordinate in femtometres.
#[derive(Clone, Copy, Debug, PartialEq, Eq, Structural)]
pub struct Point {
    pub x: i32,
    pub y: i32,
    pub z: i32,
}

/// An integer vector, wide enough for the products of displacements.
#[derive(Clone, Copy, Debug, PartialEq, Eq, Structural)]
pub struct Vec3 {
    pub x: i128,
    pub y: i128,
    pub z: i128,
}

/// The mathematical vector that a `Point` or a `Vec3` stands for.
pub struct Vect {
    pub x: int,
    pub y: int,
    pub z: int,
}

impl View for Point {
    type V = Vect;

    open spec fn view(&self) -> Vect {
        Vect { x: self.x as int, y: self.y as int, z: self.z as int }
    }
}

impl View for Vec3 {
    type V = Vect;

    open spec fn view(&self) -> Vect {
        Vect { x: self.x as int, y: self.y as int, z: self.z as int }
    }
}

pub open spec fn vsub(a: Vect, b: Vect) -> Vect {
    Vect { x: a.x - b.x, y: a.y - b.y, z: a.z - b.z }
}

pub open spec fn dot(a: Vect, b: Vect) -> int {
    a.x * b.x + a.y * b.y + a.z * b.z
}

pub open spec fn cross(a: Vect, b: Vect) -> Vect {
    Vect { x: a.y * b.z - a.z * b.y, y: a.z * b.x - a.x * b.z, z: a.x * b.y - a.y * b.x }
}

pub open spec fn norm_sq(a: Vect) -> int {
    dot(a, a)
}

pub open spec fn is_zero(a: Vect) -> bool {
    a.x == 0 && a.y == 0 && a.z == 0
}

/// Every coordinate of `a` lies in `[-b, b]`.
pub open spec fn bounded(a: Vect, b: int) -> bool {
    -b <= a.x <= b && -b <= a.y <= b && -b <= a.z <= b
}

/// Largest magnitude of a coordinate of a displacement between two points.
pub open spec fn disp_bound() -> int {
    0x1_0000_0000
}

/// Largest magnitude of a coordinate of the cross product of two displacements.
pub open spec fn normal_bound() -> int {
    0x2_0000_0000_0000_0000
}

proof fn lemma_mul_bound(a: int, b: int, ba: int, bb: int)
    requires
        -ba <= a <= ba,
        -bb <= b <= bb,
    ensures
        -(ba * bb) <= a * b <= ba * bb,
{
    assert(-(ba * bb) <= a * b <= ba * bb) by (nonlinear_arith)
        requires
            -ba <= a <= ba,
            -bb <= b <= bb,
    ;
}

/// The displacement `a - b`, pointing from `b` to `a`.
pub fn displacement(a: &Point, b: &Point) -> (r: Vec3)
    ensures
        r@ == vsub(a@, b@),
        bounded(r@, disp_bound()),
{
    Vec3 {
        x: a.x as i128 - b.x as i128,
        y: a.y as i128 - b.y as i128,
        z: a.z as i128 - b.z as i128,
    }
}

/// Dot product of two vectors whose coordinates are bounded by `2^66` and
/// `2^33`, which covers a normal against a displacement and two displacements.
pub fn get_udp(u: &Vec3, v: &Vec3) -> (r: i128)
    requires
        bounded(u@, 0x4_0000_0000_0000_0000),
        bounded(v@, 0x2_0000_0000),
    ensures
        r == dot(u@, v@),
{
    proof {
        lemma_mul_bound(u.x as int, v.x as int, 0x4_0000_0000_0000_0000, 0x2_0000_0000);
        lemma_mul_bound(u.y as int, v.y as int, 0x4_0000_0000_0000_0000, 0x2_0000_0000);
        lemma_mul_bound(u.z as int, v.z as int, 0x4_0000_0000_0000_0000, 0x2_0000_0000);
    }
    u.x * v.x + u.y * v.y + u.z * v.z
}

/// Cross product of two displacements: a normal of the plane they span. Its
/// direction is that of the unit normal; its length is the product of the
/// two lengths and the sine of the angle between them, zero exactly when the
/// two are parallel or one of them is zero.
pub fn get_ucp(u: &Vec3, v: &Vec3) -> (r: Vec3)
    requires
        bounded(u@, disp_bound()),
        bounded(v@, disp_bound()),
    ensures
        r@ == cross(u@, v@),
        bounded(r@, normal_bound()),
{
    proof {
        let b = disp_bound();
        lemma_mul_bound(u.y as int, v.z as int, b, b);
        lemma_mul_bound(u.z as int, v.y as int, b, b);
        lemma_mul_bound(u.z as int, v.x as int, b, b);
        lemma_mul_bound(u.x as int, v.z as int, b, b);
        lemma_mul_bound(u.x as int, v.y as int, b, b);
        lemma_mul_bound(u.y as int, v.x as int, b, b);
    }
    Vec3 {
        x: u.y * v.z - u.z * v.y,
        y: u.z * v.x - u.x * v.z,
        z: u.x * v.y - u.y * v.x,
    }
}

/// Lagrange's identity: `|a|²|b|² - (a·b)² = |a×b|²`.
pub proof fn lemma_lagrange(a: Vect, b: Vect)
    ensures
        norm_sq(a) * norm_sq(b) - dot(a, b) * dot(a, b) == norm_sq(cross(a, b)),
{
    let (p, q, r, u, v, w) = (a.x, a.y, a.z, b.x, b.y, b.z);
    assert((p * p + q * q + r * r) * (u * u + v * v + w * w) == p * p * (u * u) + p * p * (v * v)
        + p * p * (w * w) + q * q * (u * u) + q * q * (v * v) + q * q * (w * w) + r * r * (u * u)
        + r * r * (v * v) + r * r * (w * w)) by (nonlinear_arith);
    assert((p * u + q * v + r * w) * (p * u + q * v + r * w) == p * u * (p * u) + q * v * (q * v)
        + r * w * (r * w) + 2 * (p * u * (q * v)) + 2 * (p * u * (r * w)) + 2 * (q * v * (r
        * w))) by (nonlinear_arith);
    assert((q * w - r * v) * (q * w - r * v) == q * w * (q * w) + r * v * (r * v) - 2 * (q * w * (r
        * v))) by (nonlinear_arith);
    assert((r * u - p * w) * (r * u - p * w) == r * u * (r * u) + p * w * (p * w) - 2 * (r * u * (p
        * w))) by (nonlinear_arith);
    assert((p * v - q * u) * (p * v - q * u) == p * v * (p * v) + q * u * (q * u) - 2 * (p * v * (q
        * u))) by (nonlinear_arith);
    assert(p * p * (u * u) == p * u * (p * u)) by (nonlinear_arith);
    assert(q * q * (v * v) == q * v * (q * v)) by (nonlinear_arith);
    assert(r * r * (w * w) == r * w * (r * w)) by (nonlinear_arith);
    assert(p * p * (v * v) == p * v * (p * v)) by (nonlinear_arith);
    assert(p * p * (w * w) == p * w * (p * w)) by (nonlinear_arith);
    assert(q * q * (u * u) == q * u * (q * u)) by (nonlinear_arith);
    assert(q * q * (w * w) == q * w * (q * w)) by (nonlinear_arith);
    assert(r * r * (u * u) == r * u * (r * u)) by (nonlinear_arith);
    assert(r * r * (v * v) == r * v * (r * v)) by (nonlinear_arith);
    assert(p * u * (q * v) == p * v * (q * u)) by (nonlinear_arith);
    assert(p * u * (r * w) == r * u * (p * w)) by (nonlinear_arith);
    assert(q * v * (r * w) == q * w * (r * v)) by (nonlinear_arith);
}

/// Cauchy–Schwarz: `(a·b)² <= |a|²|b|²`, with equality exactly when `a×b = 0`.
pub proof fn lemma_cauchy_schwarz(a: Vect, b: Vect)
    ensures
        dot(a, b) * dot(a, b) <= norm_sq(a) * norm_sq(b),
        dot(a, b) * dot(a, b) == norm_sq(a) * norm_sq(b) <==> is_zero(cross(a, b)),
{
    lemma_lagrange(a, b);
    let c = cross(a, b);
    assert(c.x * c.x >= 0 && c.y * c.y >= 0 && c.z * c.z >= 0) by (nonlinear_arith);
    if norm_sq(c) == 0 {
        assert(c.x * c.x == 0 && c.y * c.y == 0 && c.z * c.z == 0);
        assert(c.x == 0 && c.y == 0 && c.z == 0) by (nonlinear_arith)
            requires c.x * c.x == 0 && c.y * c.y == 0 && c.z * c.z == 0;
    }
}

/// `|a|² >= 0`, with equality only for the zero vector.
pub proof fn lemma_norm_sq(a: Vect)
    ensures
        norm_sq(a) >= 0,
        norm_sq(a) == 0 <==> is_zero(a),
{
    assert(a.x * a.x >= 0 && a.y * a.y >= 0 && a.z * a.z >= 0) by (nonlinear_arith);
    if norm_sq(a) == 0 {
        assert(a.x == 0 && a.y == 0 && a.z == 0) by (nonlinear_arith)
            requires a.x * a.x + a.y * a.y + a.z * a.z == 0,
                a.x * a.x >= 0 && a.y * a.y >= 0 && a.z * a.z >= 0;
    }
}

} // verus!
