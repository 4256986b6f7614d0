//! Integer-coordinate geometry: 3D vectors and the triangle and quad
//! polygons that mesh faces are made of.
//!
//! Coordinates are fixed-point integers. Derived polygon fields (center,
//! normal) are computed exactly, with centroid components rounded by
//! truncating division.

use crate::numeric::trunc_div;
use vstd::prelude::*;

verus! {

/// Largest coordinate magnitude the polygon constructors accept: keeps
/// every difference, cross product and centroid sum inside `i64`.
pub const GEOM_BOUND: i64 = 536870912;

/// Largest coordinate magnitude the cross and dot products accept (twice
/// `GEOM_BOUND`, so differences of in-range vertices are accepted).
pub const DIFF_BOUND: i64 = 1073741824;

/// Largest point count `average_points` accepts.
pub const AVG_CAP: usize = 1048576;

/// A 3D point or direction with fixed-point integer coordinates.
#[derive(Clone, Copy, PartialEq, Eq, Structural, Debug)]
pub struct Vector {
    pub x: i64,
    pub y: i64,
    pub z: i64,
}

/// All three coordinates are within `bound`.
pub open spec fn vec_in_range(v: Vector, bound: int) -> bool {
    &&& -bound <= v.x <= bound
    &&& -bound <= v.y <= bound
    &&& -bound <= v.z <= bound
}

/// Sum of the x coordinates of `s`.
pub open spec fn sum_x(s: Seq<Vector>) -> int
    decreases s.len(),
{
    if s.len() == 0 {
        0
    } else {
        sum_x(s.drop_last()) + s.last().x
    }
}

/// Sum of the y coordinates of `s`.
pub open spec fn sum_y(s: Seq<Vector>) -> int
    decreases s.len(),
{
    if s.len() == 0 {
        0
    } else {
        sum_y(s.drop_last()) + s.last().y
    }
}

/// Sum of the z coordinates of `s`.
pub open spec fn sum_z(s: Seq<Vector>) -> int
    decreases s.len(),
{
    if s.len() == 0 {
        0
    } else {
        sum_z(s.drop_last()) + s.last().z
    }
}

/// The componentwise average of `s` with truncating division, and the
/// zero vector for an empty sequence.
pub open spec fn is_centroid(c: Vector, s: Seq<Vector>) -> bool {
    if s.len() == 0 {
        c == (Vector { x: 0, y: 0, z: 0 })
    } else {
        &&& c.x == trunc_div(sum_x(s), s.len() as int)
        &&& c.y == trunc_div(sum_y(s), s.len() as int)
        &&& c.z == trunc_div(sum_z(s), s.len() as int)
    }
}

/// `c` is the difference `a - b`.
pub open spec fn is_sub(c: Vector, a: Vector, b: Vector) -> bool {
    &&& c.x == a.x - b.x
    &&& c.y == a.y - b.y
    &&& c.z == a.z - b.z
}

/// `c` is the cross product `a x b`.
pub open spec fn is_cross(c: Vector, a: Vector, b: Vector) -> bool {
    &&& c.x == a.y * b.z - a.z * b.y
    &&& c.y == a.z * b.x - a.x * b.z
    &&& c.z == a.x * b.y - a.y * b.x
}

impl Vector {
    pub fn new(x: i64, y: i64, z: i64) -> (v: Vector)
        ensures
            v == (Vector { x, y, z }),
    {
        Vector { x, y, z }
    }

    /// Componentwise sum.
    pub fn add(&self, other: &Vector) -> (r: Vector)
        requires
            i64::MIN <= self.x + other.x <= i64::MAX,
            i64::MIN <= self.y + other.y <= i64::MAX,
            i64::MIN <= self.z + other.z <= i64::MAX,
        ensures
            r.x == self.x + other.x,
            r.y == self.y + other.y,
            r.z == self.z + other.z,
    {
        Vector { x: self.x + other.x, y: self.y + other.y, z: self.z + other.z }
    }

    /// Componentwise difference.
    pub fn sub(&self, other: &Vector) -> (r: Vector)
        requires
            i64::MIN <= self.x - other.x <= i64::MAX,
            i64::MIN <= self.y - other.y <= i64::MAX,
            i64::MIN <= self.z - other.z <= i64::MAX,
        ensures
            is_sub(r, *self, *other),
    {
        Vector { x: self.x - other.x, y: self.y - other.y, z: self.z - other.z }
    }

    /// Cross product, exact for coordinates within `GEOM_BOUND`.
    pub fn cross(&self, other: &Vector) -> (r: Vector)
        requires
            vec_in_range(*self, DIFF_BOUND as int),
            vec_in_range(*other, DIFF_BOUND as int),
        ensures
            is_cross(r, *self, *other),
    {
        proof {
            lemma_cross_terms_bounded(*self, *other);
        }
        Vector {
            x: self.y * other.z - self.z * other.y,
            y: self.z * other.x - self.x * other.z,
            z: self.x * other.y - self.y * other.x,
        }
    }

    /// Dot product, exact for coordinates within `GEOM_BOUND`.
    pub fn dot(&self, other: &Vector) -> (r: i64)
        requires
            vec_in_range(*self, DIFF_BOUND as int),
            vec_in_range(*other, DIFF_BOUND as int),
        ensures
            r == self.x * other.x + self.y * other.y + self.z * other.z,
    {
        proof {
            lemma_cross_terms_bounded(*self, *other);
        }
        self.x * other.x + self.y * other.y + self.z * other.z
    }

    /// Componentwise truncating division by a scalar.
    pub fn div(&self, d: i64) -> (r: Vector)
        requires
            d != 0,
            vec_in_range(*self, GEOM_BOUND as int),
        ensures
            r.x == trunc_div(self.x as int, d as int),
            r.y == trunc_div(self.y as int, d as int),
            r.z == trunc_div(self.z as int, d as int),
    {
        proof {
            crate::numeric::lemma_trunc_div_bound(self.x as int, d as int);
            crate::numeric::lemma_trunc_div_bound(self.y as int, d as int);
            crate::numeric::lemma_trunc_div_bound(self.z as int, d as int);
        }
        let x = match self.x.checked_div(d) {
            Some(v) => v,
            None => 0,
        };
        let y = match self.y.checked_div(d) {
            Some(v) => v,
            None => 0,
        };
        let z = match self.z.checked_div(d) {
            Some(v) => v,
            None => 0,
        };
        Vector { x, y, z }
    }
}

/// Each product term in a cross or dot product of `DIFF_BOUND`-ranged
/// vectors stays well inside `i64`.
proof fn lemma_cross_terms_bounded(a: Vector, b: Vector)
    requires
        vec_in_range(a, DIFF_BOUND as int),
        vec_in_range(b, DIFF_BOUND as int),
    ensures
        -1152921504606846976 <= a.x * b.x <= 1152921504606846976,
        -1152921504606846976 <= a.x * b.y <= 1152921504606846976,
        -1152921504606846976 <= a.x * b.z <= 1152921504606846976,
        -1152921504606846976 <= a.y * b.x <= 1152921504606846976,
        -1152921504606846976 <= a.y * b.y <= 1152921504606846976,
        -1152921504606846976 <= a.y * b.z <= 1152921504606846976,
        -1152921504606846976 <= a.z * b.x <= 1152921504606846976,
        -1152921504606846976 <= a.z * b.y <= 1152921504606846976,
        -1152921504606846976 <= a.z * b.z <= 1152921504606846976,
{
    assert((-1152921504606846976 <= a.x * b.x <= 1152921504606846976) && (-1152921504606846976
        <= a.x * b.y <= 1152921504606846976) && (-1152921504606846976 <= a.x * b.z
        <= 1152921504606846976) && (-1152921504606846976 <= a.y * b.x <= 1152921504606846976) && (
    -1152921504606846976 <= a.y * b.y <= 1152921504606846976) && (-1152921504606846976 <= a.y * b.z
        <= 1152921504606846976) && (-1152921504606846976 <= a.z * b.x <= 1152921504606846976) && (
    -1152921504606846976 <= a.z * b.y <= 1152921504606846976) && (-1152921504606846976 <= a.z * b.z
        <= 1152921504606846976)) by (nonlinear_arith)
        requires
            vec_in_range(a, DIFF_BOUND as int),
            vec_in_range(b, DIFF_BOUND as int),
            DIFF_BOUND == 1073741824i64,
    ;
}

/// A triangle with its centroid and (unnormalised) normal.
#[derive(Clone, Copy, Debug)]
pub struct Triangle {
    pub center: Vector,
    pub normal: Vector,
    pub vertices: [Vector; 3],
}

/// A quadrilateral with its centroid and (unnormalised) normal taken from
/// its first three vertices.
#[derive(Clone, Copy, Debug)]
pub struct Quad {
    pub center: Vector,
    pub normal: Vector,
    pub vertices: [Vector; 4],
}

/// `t` is the triangle over `v1, v2, v3`: those vertices in order, the
/// truncated centroid, and the normal `(v2 - v1) x (v3 - v1)`.
pub open spec fn is_triangle_of(t: Triangle, v1: Vector, v2: Vector, v3: Vector) -> bool {
    &&& t.vertices@ == seq![v1, v2, v3]
    &&& is_centroid(t.center, seq![v1, v2, v3])
    &&& exists|u: Vector, w: Vector|
        is_sub(u, v2, v1) && is_sub(w, v3, v1) && #[trigger] is_cross(t.normal, u, w)
}

/// `q` is the quad over `v1, v2, v3, v4`: those vertices in order, the
/// truncated centroid, and the normal `(v2 - v1) x (v3 - v1)`.
pub open spec fn is_quad_of(q: Quad, v1: Vector, v2: Vector, v3: Vector, v4: Vector) -> bool {
    &&& q.vertices@ == seq![v1, v2, v3, v4]
    &&& is_centroid(q.center, seq![v1, v2, v3, v4])
    &&& exists|u: Vector, w: Vector|
        is_sub(u, v2, v1) && is_sub(w, v3, v1) && #[trigger] is_cross(q.normal, u, w)
}

impl Triangle {
    /// Builds the triangle over three `GEOM_BOUND`-ranged vertices.
    pub fn new(v1: &Vector, v2: &Vector, v3: &Vector) -> (t: Triangle)
        requires
            vec_in_range(*v1, GEOM_BOUND as int),
            vec_in_range(*v2, GEOM_BOUND as int),
            vec_in_range(*v3, GEOM_BOUND as int),
        ensures
            is_triangle_of(t, *v1, *v2, *v3),
    {
        let u = v2.sub(v1);
        let w = v3.sub(v1);
        let normal = u.cross(&w);
        let mut pts: Vec<Vector> = Vec::new();
        pts.push(*v1);
        pts.push(*v2);
        pts.push(*v3);
        let center = average_points(&pts);
        proof {
            assert(pts@ =~= seq![*v1, *v2, *v3]);
        }
        let t = Triangle { center, normal, vertices: [*v1, *v2, *v3] };
        proof {
            assert(t.vertices@ =~= seq![*v1, *v2, *v3]);
            assert(is_sub(u, *v2, *v1) && is_sub(w, *v3, *v1) && is_cross(t.normal, u, w));
        }
        t
    }
}

impl Quad {
    /// Builds the quad over four `GEOM_BOUND`-ranged vertices.
    pub fn new(v1: &Vector, v2: &Vector, v3: &Vector, v4: &Vector) -> (q: Quad)
        requires
            vec_in_range(*v1, GEOM_BOUND as int),
            vec_in_range(*v2, GEOM_BOUND as int),
            vec_in_range(*v3, GEOM_BOUND as int),
            vec_in_range(*v4, GEOM_BOUND as int),
        ensures
            is_quad_of(q, *v1, *v2, *v3, *v4),
    {
        let u = v2.sub(v1);
        let w = v3.sub(v1);
        let normal = u.cross(&w);
        let mut pts: Vec<Vector> = Vec::new();
        pts.push(*v1);
        pts.push(*v2);
        pts.push(*v3);
        pts.push(*v4);
        let center = average_points(&pts);
        proof {
            assert(pts@ =~= seq![*v1, *v2, *v3, *v4]);
        }
        let q = Quad { center, normal, vertices: [*v1, *v2, *v3, *v4] };
        proof {
            assert(q.vertices@ =~= seq![*v1, *v2, *v3, *v4]);
            assert(is_sub(u, *v2, *v1) && is_sub(w, *v3, *v1) && is_cross(q.normal, u, w));
        }
        q
    }
}

/// Sums of `GEOM_BOUND`-ranged coordinates stay within `AVG_CAP` times
/// the bound.
proof fn lemma_sum_bounds(s: Seq<Vector>)
    requires
        forall|i: int| 0 <= i < s.len() ==> vec_in_range(#[trigger] s[i], GEOM_BOUND as int),
        s.len() <= AVG_CAP,
    ensures
        -((s.len() as int) * (GEOM_BOUND as int)) <= sum_x(s) <= (s.len() as int) * (
        GEOM_BOUND as int),
        -((s.len() as int) * (GEOM_BOUND as int)) <= sum_y(s) <= (s.len() as int) * (
        GEOM_BOUND as int),
        -((s.len() as int) * (GEOM_BOUND as int)) <= sum_z(s) <= (s.len() as int) * (
        GEOM_BOUND as int),
        -576460752303423488 <= sum_x(s) <= 576460752303423488,
        -576460752303423488 <= sum_y(s) <= 576460752303423488,
        -576460752303423488 <= sum_z(s) <= 576460752303423488,
    decreases s.len(),
{
    if s.len() == 0 {
        assert((s.len() as int) * (GEOM_BOUND as int) == 0) by (nonlinear_arith)
            requires
                s.len() == 0,
        ;
    } else {
        assert(vec_in_range(s[s.len() - 1], GEOM_BOUND as int));
        assert(forall|i: int|
            0 <= i < s.drop_last().len() ==> vec_in_range(
                #[trigger] s.drop_last()[i],
                GEOM_BOUND as int,
            ));
        lemma_sum_bounds(s.drop_last());
        let prev_x = sum_x(s.drop_last());
        let prev_y = sum_y(s.drop_last());
        let prev_z = sum_z(s.drop_last());
        assert((-((s.len() as int) * (GEOM_BOUND as int)) <= prev_x + s.last().x <= (
        s.len() as int) * (GEOM_BOUND as int)) && (-((s.len() as int) * (GEOM_BOUND as int))
            <= prev_y + s.last().y <= (s.len() as int) * (GEOM_BOUND as int)) && (-((
        s.len() as int) * (GEOM_BOUND as int)) <= prev_z + s.last().z <= (s.len() as int) * (
        GEOM_BOUND as int)) && ((s.len() as int) * (GEOM_BOUND as int) <= 576460752303423488))
            by (nonlinear_arith)
            requires
                -(((s.len() - 1) as int) * (GEOM_BOUND as int)) <= prev_x <= ((s.len()
                    - 1) as int) * (GEOM_BOUND as int),
                -(((s.len() - 1) as int) * (GEOM_BOUND as int)) <= prev_y <= ((s.len()
                    - 1) as int) * (GEOM_BOUND as int),
                -(((s.len() - 1) as int) * (GEOM_BOUND as int)) <= prev_z <= ((s.len()
                    - 1) as int) * (GEOM_BOUND as int),
                -(GEOM_BOUND as int) <= s.last().x <= GEOM_BOUND as int,
                -(GEOM_BOUND as int) <= s.last().y <= GEOM_BOUND as int,
                -(GEOM_BOUND as int) <= s.last().z <= GEOM_BOUND as int,
                1 <= s.len() <= AVG_CAP as int,
                AVG_CAP == 1048576usize,
                GEOM_BOUND == 536870912i64,
        ;
    }
}

/// The componentwise average of a point list with truncating division;
/// the zero vector for an empty list.
pub fn average_points(points: &Vec<Vector>) -> (c: Vector)
    requires
        forall|i: int|
            0 <= i < points@.len() ==> vec_in_range(#[trigger] points@[i], GEOM_BOUND as int),
        points@.len() <= AVG_CAP,
    ensures
        is_centroid(c, points@),
{
    let n = points.len();
    if n == 0 {
        return Vector { x: 0, y: 0, z: 0 };
    }
    let mut sx: i64 = 0;
    let mut sy: i64 = 0;
    let mut sz: i64 = 0;
    let mut i: usize = 0;
    while i < n
        invariant
            n == points@.len(),
            n <= AVG_CAP,
            i <= n,
            forall|k: int|
                0 <= k < points@.len() ==> vec_in_range(#[trigger] points@[k], GEOM_BOUND as int),
            sx == sum_x(points@.take(i as int)),
            sy == sum_y(points@.take(i as int)),
            sz == sum_z(points@.take(i as int)),
        decreases n - i,
    {
        proof {
            assert(forall|k: int|
                0 <= k < points@.take(i as int).len() ==> vec_in_range(
                    #[trigger] points@.take(i as int)[k],
                    GEOM_BOUND as int,
                ));
            lemma_sum_bounds(points@.take(i as int));
            assert(vec_in_range(points@[i as int], GEOM_BOUND as int));
            assert(points@.take(i + 1).drop_last() =~= points@.take(i as int));
            assert(points@.take(i + 1).last() == points@[i as int]);
        }
        let p = points[i];
        sx = sx + p.x;
        sy = sy + p.y;
        sz = sz + p.z;
        i = i + 1;
    }
    proof {
        assert(points@.take(n as int) =~= points@);
        crate::numeric::lemma_trunc_div_bound(sx as int, n as int);
        crate::numeric::lemma_trunc_div_bound(sy as int, n as int);
        crate::numeric::lemma_trunc_div_bound(sz as int, n as int);
    }
    let x = match sx.checked_div(n as i64) {
        Some(v) => v,
        None => 0,
    };
    let y = match sy.checked_div(n as i64) {
        Some(v) => v,
        None => 0,
    };
    let z = match sz.checked_div(n as i64) {
        Some(v) => v,
        None => 0,
    };
    Vector { x, y, z }
}

} // verus!
