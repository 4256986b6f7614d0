//! Rectangular elevation grid: per-index coordinates and ground heights.
//!
//! The grid is the mesh builder's elevation source. Horizontal positions
//! are derived from an origin and a positive resolution; heights are
//! stored row-flattened, column-major (index `col * ny + row`), all in
//! fixed-point integer coordinates.

use crate::geometry::Triangle;
use crate::geometry::Vector;
use crate::geometry::is_triangle_of;
use crate::geometry::vec_in_range;
use vstd::prelude::*;

verus! {

/// Largest coordinate magnitude a grid may span, well inside the range
/// the geometry accepts.
pub const COORD_BOUND: i64 = 1048576;

/// Largest grid dimension.
pub const GRID_DIM_CAP: usize = 65536;

/// A rectangular elevation sampling with horizontal origin and
/// resolution. Immutable once loaded.
pub struct Grid {
    pub elevations: Vec<i64>,
    pub x_min: i64,
    pub y_min: i64,
    pub x_max: i64,
    pub y_max: i64,
    pub x_res: i64,
    pub y_res: i64,
    pub z_min: i64,
    pub z_max: i64,
    pub nx: usize,
    pub ny: usize,
}

impl Grid {
    /// Well-formed grid: positive dimensions and resolutions, a full
    /// elevation table, and every coordinate within `COORD_BOUND`.
    pub open spec fn wf(self) -> bool {
        &&& 1 <= self.nx <= GRID_DIM_CAP
        &&& 1 <= self.ny <= GRID_DIM_CAP
        &&& self.elevations@.len() == self.nx * self.ny
        &&& self.nx * self.ny <= usize::MAX
        &&& 0 < self.x_res
        &&& 0 < self.y_res
        &&& self.x_res * self.nx <= COORD_BOUND
        &&& self.y_res * self.ny <= COORD_BOUND
        &&& -COORD_BOUND <= self.x_min <= COORD_BOUND
        &&& -COORD_BOUND <= self.y_min <= COORD_BOUND
        &&& -COORD_BOUND <= self.x_max <= COORD_BOUND
        &&& -COORD_BOUND <= self.y_max <= COORD_BOUND
        &&& -COORD_BOUND <= self.z_min <= COORD_BOUND
        &&& -COORD_BOUND <= self.z_max <= COORD_BOUND
        &&& forall|i: int|
            0 <= i < self.elevations@.len() ==> -COORD_BOUND <= #[trigger] self.elevations@[i]
                <= COORD_BOUND
    }

    /// The x coordinate of column `col`.
    pub open spec fn gx(self, col: int) -> int {
        self.x_min + self.x_res * col
    }

    /// The y coordinate of row `row`.
    pub open spec fn gy(self, row: int) -> int {
        self.y_min + self.y_res * row
    }

    /// The stored ground height at (col, row).
    pub open spec fn elev(self, col: int, row: int) -> int {
        self.elevations@[col * self.ny + row] as int
    }

    pub fn x(&self, col: usize) -> (r: i64)
        requires
            self.wf(),
            col < self.nx,
        ensures
            r == self.gx(col as int),
            -2 * COORD_BOUND <= r <= 2 * COORD_BOUND,
    {
        proof {
            lemma_scaled_offset(self.x_res as int, col as int, self.nx as int);
        }
        self.x_min + self.x_res * (col as i64)
    }

    pub fn y(&self, row: usize) -> (r: i64)
        requires
            self.wf(),
            row < self.ny,
        ensures
            r == self.gy(row as int),
            -2 * COORD_BOUND <= r <= 2 * COORD_BOUND,
    {
        proof {
            lemma_scaled_offset(self.y_res as int, row as int, self.ny as int);
        }
        self.y_min + self.y_res * (row as i64)
    }

    pub fn z(&self, col: usize, row: usize) -> (r: i64)
        requires
            self.wf(),
            col < self.nx,
            row < self.ny,
        ensures
            r == self.elev(col as int, row as int),
            -COORD_BOUND <= r <= COORD_BOUND,
    {
        proof {
            lemma_flat_index(col as int, row as int, self.nx as int, self.ny as int);
        }
        self.elevations[col * self.ny + row]
    }

    /// The 3D point of the sample at (col, row).
    pub fn xyz(&self, col: usize, row: usize) -> (r: Vector)
        requires
            self.wf(),
            col < self.nx,
            row < self.ny,
        ensures
            r.x == self.gx(col as int),
            r.y == self.gy(row as int),
            r.z == self.elev(col as int, row as int),
            vec_in_range(r, 2 * COORD_BOUND as int),
    {
        Vector { x: self.x(col), y: self.y(row), z: self.z(col, row) }
    }
}

/// A nonnegative scaled offset below the grid's span bound.
proof fn lemma_scaled_offset(res: int, idx: int, dim: int)
    requires
        0 < res,
        0 <= idx < dim,
        res * dim <= COORD_BOUND as int,
    ensures
        0 <= res * idx <= COORD_BOUND as int,
{
    assert(0 <= res * idx && res * idx <= res * dim) by (nonlinear_arith)
        requires
            0 < res,
            0 <= idx < dim,
    ;
}

/// Flattened index of (col, row) lies inside the elevation table.
pub proof fn lemma_flat_index(col: int, row: int, nx: int, ny: int)
    requires
        0 <= col < nx,
        0 <= row < ny,
    ensures
        0 <= col * ny + row < nx * ny,
        col * ny <= (nx - 1) * ny,
{
    assert(0 <= col * ny + row < nx * ny && col * ny <= (nx - 1) * ny) by (nonlinear_arith)
        requires
            0 <= col < nx,
            0 <= row < ny,
    ;
}

/// The largest elevation in the table (the last one among equals).
pub open spec fn seq_max(s: Seq<i64>) -> int
    decreases s.len(),
{
    if s.len() <= 1 {
        if s.len() == 0 {
            0
        } else {
            s[0] as int
        }
    } else if s.last() >= seq_max(s.drop_last()) {
        s.last() as int
    } else {
        seq_max(s.drop_last())
    }
}

impl Grid {
    /// The largest stored elevation.
    pub fn max_elevation(&self) -> (r: i64)
        requires
            self.wf(),
        ensures
            r == seq_max(self.elevations@),
            -COORD_BOUND <= r <= COORD_BOUND,
    {
        proof {
            assert(self.elevations@.len() >= 1) by (nonlinear_arith)
                requires
                    1 <= self.nx,
                    1 <= self.ny,
                    self.elevations@.len() == self.nx * self.ny,
            ;
        }
        let n = self.elevations.len();
        let mut best = self.elevations[0];
        let mut i: usize = 1;
        proof {
            assert(self.elevations@.take(1).drop_last() =~= self.elevations@.take(0));
            assert(best == seq_max(self.elevations@.take(1)));
        }
        while i < n
            invariant
                self.wf(),
                n == self.elevations@.len(),
                1 <= i <= n,
                best == seq_max(self.elevations@.take(i as int)),
                -COORD_BOUND <= best <= COORD_BOUND,
            decreases n - i,
        {
            let e = self.elevations[i];
            proof {
                assert(self.elevations@.take(i + 1).drop_last() =~= self.elevations@.take(
                    i as int,
                ));
                assert(self.elevations@.take(i + 1).last() == self.elevations@[i as int]);
            }
            if e >= best {
                best = e;
            }
            i = i + 1;
        }
        proof {
            assert(self.elevations@.take(n as int) =~= self.elevations@);
        }
        best
    }
}

/// The 3D sample point at (col, row).
pub open spec fn grid_point(g: Grid, c: int, r: int) -> Vector {
    Vector { x: g.gx(c) as i64, y: g.gy(r) as i64, z: g.elev(c, r) as i64 }
}

/// The border sample of column `t` on the north edge (largest y).
pub open spec fn north_point(g: Grid, t: int) -> Vector {
    Vector { x: g.gx(t) as i64, y: g.y_max, z: g.elev(t, g.ny - 1) as i64 }
}

/// The border sample of column `t` on the south edge (smallest y).
pub open spec fn south_point(g: Grid, t: int) -> Vector {
    Vector { x: g.gx(t) as i64, y: g.y_min, z: g.elev(t, 0) as i64 }
}

/// The border sample of row `t` on the west edge (smallest x).
pub open spec fn west_point(g: Grid, t: int) -> Vector {
    Vector { x: g.x_min, y: g.gy(t) as i64, z: g.elev(0, t) as i64 }
}

/// The border sample of row `t` on the east edge (largest x).
pub open spec fn east_point(g: Grid, t: int) -> Vector {
    Vector { x: g.x_max, y: g.gy(t) as i64, z: g.elev(g.nx - 1, t) as i64 }
}

/// The two wall triangles raised from border points `a` to `b` up to
/// height `h`: one on the ground edge, one on the lifted edge.
pub open spec fn is_wall_strip(t1: Triangle, t2: Triangle, a: Vector, b: Vector, h: i64) -> bool {
    &&& is_triangle_of(t1, a, b, lifted(a, h))
    &&& is_triangle_of(t2, b, lifted(b, h), lifted(a, h))
}

/// The point of `v` lifted to the height `z`.
pub open spec fn lifted(v: Vector, z: i64) -> Vector {
    Vector { x: v.x, y: v.y, z }
}

/// `res` is the terrain triangulation: two triangles per horizontal
/// cell in (col, row) order, each over the cell's sample points.
pub open spec fn triangulated(g: Grid, res: Seq<Triangle>) -> bool {
    &&& res.len() == 2 * ((g.nx - 1) as int) * ((g.ny - 1) as int)
    &&& forall|c: int, r: int|
        #![trigger res[2 * (c * ((g.ny - 1) as int) + r)]]
        0 <= c < g.nx - 1 && 0 <= r < g.ny - 1 ==> {
            let base = 2 * (c * ((g.ny - 1) as int) + r);
            &&& is_triangle_of(
                res[base],
                grid_point(g, c, r),
                grid_point(g, c + 1, r),
                grid_point(g, c, r + 1),
            )
            &&& is_triangle_of(
                res[base + 1],
                grid_point(g, c + 1, r),
                grid_point(g, c + 1, r + 1),
                grid_point(g, c, r + 1),
            )
        }
}

/// Positions in the flattened triangle table grow with (c, r) order.
proof fn lemma_tripos_mono(a: int, b: int, c: int, r: int, ny: int)
    requires
        0 <= a,
        0 <= b < ny - 1,
        0 <= r,
        a < c || (a == c && b < r),
    ensures
        0 <= a * (ny - 1) + b < c * (ny - 1) + r,
{
    assert(0 <= a * (ny - 1) + b && a * (ny - 1) + b < c * (ny - 1) + r) by (nonlinear_arith)
        requires
            0 <= a,
            0 <= b < ny - 1,
            0 <= r,
            a < c || (a == c && b < r),
    ;
}

impl Grid {
    /// Triangulates the terrain surface: two triangles per horizontal
    /// cell, in (col, row) order.
    #[verifier::rlimit(100)]
    pub fn triangulate(&self) -> (res: Vec<Triangle>)
        requires
            self.wf(),
        ensures
            triangulated(*self, res@),
    {
        let nx = self.nx;
        let ny = self.ny;
        let mut res: Vec<Triangle> = Vec::new();
        if nx < 2 || ny < 2 {
            proof {
                assert(2 * ((self.nx - 1) as int) * ((self.ny - 1) as int) == 0)
                    by (nonlinear_arith)
                    requires
                        1 <= self.nx,
                        1 <= self.ny,
                        self.nx < 2 || self.ny < 2,
                ;
                assert(triangulated(*self, res@));
            }
            return res;
        }
        let mut c: usize = 0;
        proof {
            assert(2 * 0 * ((self.ny - 1) as int) == 0) by (nonlinear_arith);
        }
        while c < nx - 1
            invariant
                self.wf(),
                nx == self.nx,
                ny == self.ny,
                2 <= nx,
                2 <= ny,
                c <= nx - 1,
                res@.len() == 2 * (c as int) * ((self.ny - 1) as int),
                forall|a: int, b: int|
                    #![trigger res@[2 * (a * ((self.ny - 1) as int) + b)]]
                    0 <= a < nx - 1 && 0 <= b < ny - 1 && a < c ==> {
                        let base = 2 * (a * ((self.ny - 1) as int) + b);
                        &&& is_triangle_of(
                            res@[base],
                            grid_point(*self, a, b),
                            grid_point(*self, a + 1, b),
                            grid_point(*self, a, b + 1),
                        )
                        &&& is_triangle_of(
                            res@[base + 1],
                            grid_point(*self, a + 1, b),
                            grid_point(*self, a + 1, b + 1),
                            grid_point(*self, a, b + 1),
                        )
                    },
            decreases nx - 1 - c,
        {
            let mut r: usize = 0;
            proof {
                assert(2 * (c as int) * ((self.ny - 1) as int) == 2 * ((c as int) * ((self.ny - 1) as int)
                    + 0)) by (nonlinear_arith);
            }
            while r < ny - 1
                invariant
                    self.wf(),
                    nx == self.nx,
                    ny == self.ny,
                    2 <= nx,
                    2 <= ny,
                    c < nx - 1,
                    r <= ny - 1,
                    res@.len() == 2 * ((c as int) * ((self.ny - 1) as int) + r as int),
                    forall|a: int, b: int|
                        #![trigger res@[2 * (a * ((self.ny - 1) as int) + b)]]
                        0 <= a < nx - 1 && 0 <= b < ny - 1 && (a < c || (a == c && b < r)) ==> {
                            let base = 2 * (a * ((self.ny - 1) as int) + b);
                            &&& is_triangle_of(
                                res@[base],
                                grid_point(*self, a, b),
                                grid_point(*self, a + 1, b),
                                grid_point(*self, a, b + 1),
                            )
                            &&& is_triangle_of(
                                res@[base + 1],
                                grid_point(*self, a + 1, b),
                                grid_point(*self, a + 1, b + 1),
                                grid_point(*self, a, b + 1),
                            )
                        },
                decreases ny - 1 - r,
            {
                let v1 = self.xyz(c, r);
                let v2 = self.xyz(c + 1, r);
                let v3 = self.xyz(c, r + 1);
                let v4 = self.xyz(c + 1, r + 1);
                let ghost old_res = res@;
                res.push(Triangle::new(&v1, &v2, &v3));
                res.push(Triangle::new(&v2, &v4, &v3));
                proof {
                    assert forall|a: int, b: int|
                        #![trigger res@[2 * (a * ((self.ny - 1) as int) + b)]]
                        0 <= a < nx - 1 && 0 <= b < ny - 1 && (a < c || (a == c && b < r
                            + 1)) implies {
                        let base = 2 * (a * ((self.ny - 1) as int) + b);
                        &&& is_triangle_of(
                            res@[base],
                            grid_point(*self, a, b),
                            grid_point(*self, a + 1, b),
                            grid_point(*self, a, b + 1),
                        )
                        &&& is_triangle_of(
                            res@[base + 1],
                            grid_point(*self, a + 1, b),
                            grid_point(*self, a + 1, b + 1),
                            grid_point(*self, a, b + 1),
                        )
                    } by {
                        if a < c || (a == c && b < r) {
                            lemma_tripos_mono(a, b, c as int, r as int, ny as int);
                            assert(res@[2 * (a * ((self.ny - 1) as int) + b)] == old_res[2 * (a * ((ny
                                - 1) as int) + b)]);
                            assert(res@[2 * (a * ((self.ny - 1) as int) + b) + 1] == old_res[2 * (a * ((
                            ny - 1) as int) + b) + 1]);
                        } else {
                            assert(a == c && b == r);
                            assert(2 * (a * ((self.ny - 1) as int) + b) == old_res.len());
                        }
                    }
                }
                r = r + 1;
            }
            proof {
                assert(2 * ((c as int) * ((self.ny - 1) as int) + ((self.ny - 1) as int)) == 2 * ((c
                    + 1) as int) * ((self.ny - 1) as int)) by (nonlinear_arith);
            }
            c = c + 1;
        }
        proof {
            assert forall|c2: int, r2: int|
                #![trigger res@[2 * (c2 * ((self.ny - 1) as int) + r2)]]
                0 <= c2 < self.nx - 1 && 0 <= r2 < self.ny - 1 implies {
                let base = 2 * (c2 * ((self.ny - 1) as int) + r2);
                &&& is_triangle_of(
                    res@[base],
                    grid_point(*self, c2, r2),
                    grid_point(*self, c2 + 1, r2),
                    grid_point(*self, c2, r2 + 1),
                )
                &&& is_triangle_of(
                    res@[base + 1],
                    grid_point(*self, c2 + 1, r2),
                    grid_point(*self, c2 + 1, r2 + 1),
                    grid_point(*self, c2, r2 + 1),
                )
            } by {
                assert(c2 < c);
            }
            assert(triangulated(*self, res@));
        }
        res
    }

    /// One lateral boundary wall: for each pair of adjacent border
    /// points, two triangles up to the height `z_upper`.
    fn make_single_wall(limit: &Vec<Vector>, z_upper: i64) -> (res: Vec<Triangle>)
        requires
            limit@.len() >= 1,
            -2 * COORD_BOUND <= z_upper <= 2 * COORD_BOUND,
            forall|q: int|
                0 <= q < limit@.len() ==> vec_in_range(#[trigger] limit@[q], 2 * COORD_BOUND as int),
        ensures
            res@.len() == 2 * (limit@.len() - 1),
            forall|w: int|
                #![trigger res@[2 * w]]
                0 <= w < limit@.len() - 1 ==> {
                    &&& is_triangle_of(
                        res@[2 * w],
                        limit@[w],
                        limit@[w + 1],
                        lifted(limit@[w], z_upper),
                    )
                    &&& is_triangle_of(
                        res@[2 * w + 1],
                        limit@[w + 1],
                        lifted(limit@[w + 1], z_upper),
                        lifted(limit@[w], z_upper),
                    )
                },
    {
        let n = limit.len();
        let mut res: Vec<Triangle> = Vec::new();
        let mut w: usize = 0;
        while w < n - 1
            invariant
                n == limit@.len(),
                n >= 1,
                -2 * COORD_BOUND <= z_upper <= 2 * COORD_BOUND,
                forall|q: int|
                    0 <= q < limit@.len() ==> vec_in_range(
                        #[trigger] limit@[q],
                        2 * COORD_BOUND as int,
                    ),
                w <= n - 1,
                res@.len() == 2 * w,
                forall|t: int|
                    #![trigger res@[2 * t]]
                    0 <= t < w ==> {
                        &&& is_triangle_of(
                            res@[2 * t],
                            limit@[t],
                            limit@[t + 1],
                            lifted(limit@[t], z_upper),
                        )
                        &&& is_triangle_of(
                            res@[2 * t + 1],
                            limit@[t + 1],
                            lifted(limit@[t + 1], z_upper),
                            lifted(limit@[t], z_upper),
                        )
                    },
            decreases n - 1 - w,
        {
            let v1 = limit[w];
            let v2 = limit[w + 1];
            let v3 = Vector { x: v1.x, y: v1.y, z: z_upper };
            let v4 = Vector { x: v2.x, y: v2.y, z: z_upper };
            let ghost old_res = res@;
            res.push(Triangle::new(&v1, &v2, &v3));
            res.push(Triangle::new(&v2, &v4, &v3));
            proof {
                assert forall|t: int|
                    #![trigger res@[2 * t]]
                    0 <= t < w + 1 implies {
                    &&& is_triangle_of(
                        res@[2 * t],
                        limit@[t],
                        limit@[t + 1],
                        lifted(limit@[t], z_upper),
                    )
                    &&& is_triangle_of(
                        res@[2 * t + 1],
                        limit@[t + 1],
                        lifted(limit@[t + 1], z_upper),
                        lifted(limit@[t], z_upper),
                    )
                } by {
                    if t < w {
                        assert(res@[2 * t] == old_res[2 * t]);
                        assert(res@[2 * t + 1] == old_res[2 * t + 1]);
                    } else {
                        assert(2 * t == old_res.len());
                    }
                }
            }
            w = w + 1;
        }
        res
    }

    /// The five boundary wall strips: the four lateral walls raised from
    /// the border samples up to `max_heigh` above the highest elevation,
    /// and the flat sky cover at that height.
    pub fn make_walls(&self, max_heigh: i64) -> (res: [Vec<Triangle>; 5])
        requires
            self.wf(),
            0 <= max_heigh <= COORD_BOUND,
        ensures
            ({
                let h = (max_heigh + seq_max(self.elevations@)) as i64;
                &&& res@.len() == 5
                &&& res@[0]@.len() == 2 * ((self.nx - 1) as int)
                &&& forall|t: int|
                    #![trigger res@[0]@[2 * t]]
                    0 <= t < self.nx - 1 ==> is_wall_strip(
                        res@[0]@[2 * t],
                        res@[0]@[2 * t + 1],
                        north_point(*self, t),
                        north_point(*self, t + 1),
                        h,
                    )
                &&& res@[1]@.len() == 2 * ((self.nx - 1) as int)
                &&& forall|t: int|
                    #![trigger res@[1]@[2 * t]]
                    0 <= t < self.nx - 1 ==> is_wall_strip(
                        res@[1]@[2 * t],
                        res@[1]@[2 * t + 1],
                        south_point(*self, t),
                        south_point(*self, t + 1),
                        h,
                    )
                &&& res@[2]@.len() == 2 * ((self.ny - 1) as int)
                &&& forall|t: int|
                    #![trigger res@[2]@[2 * t]]
                    0 <= t < self.ny - 1 ==> is_wall_strip(
                        res@[2]@[2 * t],
                        res@[2]@[2 * t + 1],
                        west_point(*self, t),
                        west_point(*self, t + 1),
                        h,
                    )
                &&& res@[3]@.len() == 2 * ((self.ny - 1) as int)
                &&& forall|t: int|
                    #![trigger res@[3]@[2 * t]]
                    0 <= t < self.ny - 1 ==> is_wall_strip(
                        res@[3]@[2 * t],
                        res@[3]@[2 * t + 1],
                        east_point(*self, t),
                        east_point(*self, t + 1),
                        h,
                    )
                &&& res@[4]@.len() == 2
                &&& is_triangle_of(
                    res@[4]@[0],
                    (Vector { x: self.x_min, y: self.y_max, z: h }),
                    (Vector { x: self.x_max, y: self.y_min, z: h }),
                    (Vector { x: self.x_min, y: self.y_min, z: h }),
                )
                &&& is_triangle_of(
                    res@[4]@[1],
                    (Vector { x: self.x_min, y: self.y_max, z: h }),
                    (Vector { x: self.x_max, y: self.y_max, z: h }),
                    (Vector { x: self.x_max, y: self.y_min, z: h }),
                )
            }),
    {
        let height = max_heigh + self.max_elevation();
        let nx = self.nx;
        let ny = self.ny;

        let mut points_north: Vec<Vector> = Vec::new();
        let mut i: usize = 0;
        while i < nx
            invariant
                self.wf(),
                nx == self.nx,
                ny == self.ny,
                i <= nx,
                points_north@.len() == i,
                forall|q: int| 0 <= q < i ==> #[trigger] points_north@[q] == north_point(*self, q),
                forall|q: int|
                    0 <= q < i ==> vec_in_range(
                        #[trigger] points_north@[q],
                        2 * COORD_BOUND as int,
                    ),
            decreases nx - i,
        {
            points_north.push(Vector { x: self.x(i), y: self.y_max, z: self.z(i, ny - 1) });
            i = i + 1;
        }

        let mut points_south: Vec<Vector> = Vec::new();
        let mut i: usize = 0;
        while i < nx
            invariant
                self.wf(),
                nx == self.nx,
                ny == self.ny,
                i <= nx,
                points_south@.len() == i,
                forall|q: int| 0 <= q < i ==> #[trigger] points_south@[q] == south_point(*self, q),
                forall|q: int|
                    0 <= q < i ==> vec_in_range(
                        #[trigger] points_south@[q],
                        2 * COORD_BOUND as int,
                    ),
            decreases nx - i,
        {
            points_south.push(Vector { x: self.x(i), y: self.y_min, z: self.z(i, 0) });
            i = i + 1;
        }

        let mut points_west: Vec<Vector> = Vec::new();
        let mut j: usize = 0;
        while j < ny
            invariant
                self.wf(),
                nx == self.nx,
                ny == self.ny,
                j <= ny,
                points_west@.len() == j,
                forall|q: int| 0 <= q < j ==> #[trigger] points_west@[q] == west_point(*self, q),
                forall|q: int|
                    0 <= q < j ==> vec_in_range(
                        #[trigger] points_west@[q],
                        2 * COORD_BOUND as int,
                    ),
            decreases ny - j,
        {
            points_west.push(Vector { x: self.x_min, y: self.y(j), z: self.z(0, j) });
            j = j + 1;
        }

        let mut points_east: Vec<Vector> = Vec::new();
        let mut j: usize = 0;
        while j < ny
            invariant
                self.wf(),
                nx == self.nx,
                ny == self.ny,
                j <= ny,
                points_east@.len() == j,
                forall|q: int| 0 <= q < j ==> #[trigger] points_east@[q] == east_point(*self, q),
                forall|q: int|
                    0 <= q < j ==> vec_in_range(
                        #[trigger] points_east@[q],
                        2 * COORD_BOUND as int,
                    ),
            decreases ny - j,
        {
            points_east.push(Vector { x: self.x_max, y: self.y(j), z: self.z(nx - 1, j) });
            j = j + 1;
        }

        let north = Self::make_single_wall(&points_north, height);
        let south = Self::make_single_wall(&points_south, height);
        let west = Self::make_single_wall(&points_west, height);
        let east = Self::make_single_wall(&points_east, height);

        let nw = Vector { x: self.x_min, y: self.y_max, z: height };
        let ne = Vector { x: self.x_max, y: self.y_max, z: height };
        let sw = Vector { x: self.x_min, y: self.y_min, z: height };
        let se = Vector { x: self.x_max, y: self.y_min, z: height };

        let mut sky: Vec<Triangle> = Vec::new();
        sky.push(Triangle::new(&nw, &se, &sw));
        sky.push(Triangle::new(&nw, &ne, &se));

        [north, south, west, east, sky]
    }
}

} // verus!
