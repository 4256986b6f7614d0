//! Terrain-conforming hexahedral mesh construction.
//!
//! From an elevation grid and an ordered list of vertical levels the
//! builder produces, per horizontal cell, a column of hexahedra between
//! consecutive levels, from the domain top down to the level just below
//! the lowest of the column's four corner elevations (so cells intersect
//! the terrain at the lowest corner: no gaps appear above the terrain,
//! underground cell parts may). Faces are classified as Sky, Terrain,
//! Inlet or Interior; after construction the cells are compacted so ids
//! form the contiguous range 0..N through an old-to-new id remap.

use crate::geometry::GEOM_BOUND;
use crate::geometry::Quad;
use crate::geometry::Triangle;
use crate::geometry::Vector;
use crate::geometry::is_centroid;
use crate::geometry::is_quad_of;
use crate::geometry::is_triangle_of;
use crate::geometry::vec_in_range;
use crate::numeric::trunc_div;
use crate::terrain::COORD_BOUND;
use crate::terrain::Grid;
use vstd::prelude::*;

verus! {

/// Largest grid dimension and level count the mesh builder accepts, so
/// that the provisional id space fits comfortably in a `usize`.
pub const MESH_DIM_CAP: usize = 1024;

/// Classification of a mesh face.
#[derive(Clone, Copy, PartialEq, Eq, Structural, Debug)]
pub enum WallKind {
    /// The face follows the ground surface.
    Terrain,
    /// The face closes the domain at the top.
    Sky,
    /// The face lies on a lateral domain edge.
    Inlet,
    /// The face is shared by exactly two cells.
    Interior,
}

/// The polygon of a mesh face.
#[derive(Clone, Copy, Debug)]
pub enum Poly {
    Triangle(Triangle),
    Quad(Quad),
}

/// A mesh face: its polygon, its classification, and the ids of the one
/// (boundary) or two (interior) cells that own it.
#[derive(Clone, Copy, Debug)]
pub struct Wall {
    pub poly: Poly,
    pub kind: WallKind,
    pub cells_id: [Option<usize>; 2],
    pub center: Vector,
}

/// One hexahedral cell: a compact id, its 8 vertices in a fixed winding,
/// its 6 walls, derived center, ground height and volume, and the ids of
/// the cells it shares interior walls with.
pub struct Cell {
    pub id: usize,
    pub vertices: Vec<Vector>,
    pub walls: Vec<Wall>,
    pub center: Vector,
    pub neighbours: Vec<usize>,
    pub ground_height: i64,
    pub volume: i64,
}

/// A compacted mesh: cells indexed by their own ids.
pub struct Mesh {
    pub cells: Vec<Cell>,
}

impl Wall {
    /// Builds a face over 3 or 4 in-range points with its centroid.
    pub fn new(points: &Vec<Vector>, kind: WallKind, cells_id: [Option<usize>; 2]) -> (w: Wall)
        requires
            points@.len() == 3 || points@.len() == 4,
            forall|i: int|
                0 <= i < points@.len() ==> vec_in_range(#[trigger] points@[i], GEOM_BOUND as int),
        ensures
            w.kind == kind,
            w.cells_id@ == cells_id@,
            is_centroid(w.center, points@),
            points@.len() == 3 ==> (w.poly matches Poly::Triangle(t) && is_triangle_of(
                t,
                points@[0],
                points@[1],
                points@[2],
            )),
            points@.len() == 4 ==> (w.poly matches Poly::Quad(q) && is_quad_of(
                q,
                points@[0],
                points@[1],
                points@[2],
                points@[3],
            )),
    {
        let center = crate::geometry::average_points(points);
        if points.len() == 3 {
            Wall {
                poly: Poly::Triangle(Triangle::new(&points[0], &points[1], &points[2])),
                kind,
                cells_id,
                center,
            }
        } else {
            Wall {
                poly: Poly::Quad(Quad::new(&points[0], &points[1], &points[2], &points[3])),
                kind,
                cells_id,
                center,
            }
        }
    }
}

/// The levels are ordered from highest to lowest.
pub open spec fn desc_sorted(s: Seq<i64>) -> bool {
    forall|i: int, j: int| #![trigger s[i], s[j]] 0 <= i < j < s.len() ==> s[i] >= s[j]
}

/// Where a descending sort puts `v`: after every level at or above it.
pub open spec fn insert_desc(s: Seq<i64>, v: i64) -> Seq<i64>
    decreases s.len(),
{
    if s.len() > 0 && !(s.last() >= v) {
        insert_desc(s.drop_last(), v).push(s.last())
    } else {
        s.push(v)
    }
}

/// The levels of `s` sorted from highest to lowest.
pub open spec fn sorted_desc(s: Seq<i64>) -> Seq<i64>
    decreases s.len(),
{
    if s.len() == 0 {
        Seq::empty()
    } else {
        insert_desc(sorted_desc(s.drop_last()), s.last())
    }
}

/// A descending insertion preserves length and contents and keeps the
/// run ordered.
proof fn lemma_insert_desc_props(s: Seq<i64>, v: i64)
    ensures
        insert_desc(s, v).len() == s.len() + 1,
        insert_desc(s, v).to_multiset() == s.to_multiset().insert(v),
        desc_sorted(s) ==> desc_sorted(insert_desc(s, v)),
    decreases s.len(),
{
    broadcast use vstd::seq_lib::group_to_multiset_ensures;

    if s.len() > 0 && !(s.last() >= v) {
        assert(forall|i: int, j: int|
            #![trigger s.drop_last()[i], s.drop_last()[j]]
            desc_sorted(s) && 0 <= i < j < s.drop_last().len() ==> s.drop_last()[i]
                >= s.drop_last()[j]);
        lemma_insert_desc_props(s.drop_last(), v);
        let rec = insert_desc(s.drop_last(), v);
        assert(insert_desc(s, v).to_multiset() =~= s.to_multiset().insert(v)) by {
            assert(rec.push(s.last()).to_multiset() =~= rec.to_multiset().insert(s.last()));
            assert(s.drop_last().push(s.last()) =~= s);
        }
        if desc_sorted(s) {
            assert forall|t: int| 0 <= t < rec.len() implies rec[t] >= s.last() by {
                assert(rec.to_multiset().contains(rec[t]));
                if rec[t] != v {
                    assert(s.drop_last().to_multiset().count(rec[t]) > 0);
                    assert(s.drop_last().contains(rec[t]));
                    let u = choose|u: int|
                        0 <= u < s.drop_last().len() && s.drop_last()[u] == rec[t];
                    assert(s[u] >= s[s.len() - 1]);
                }
            }
        }
    }
}

/// The descending sort preserves length and contents and orders the
/// levels from highest to lowest.
pub proof fn lemma_sorted_desc_props(s: Seq<i64>)
    ensures
        sorted_desc(s).len() == s.len(),
        sorted_desc(s).to_multiset() == s.to_multiset(),
        desc_sorted(sorted_desc(s)),
    decreases s.len(),
{
    broadcast use vstd::seq_lib::group_to_multiset_ensures;

    if s.len() > 0 {
        lemma_sorted_desc_props(s.drop_last());
        lemma_insert_desc_props(sorted_desc(s.drop_last()), s.last());
        assert(sorted_desc(s).to_multiset() =~= s.to_multiset()) by {
            assert(s.drop_last().push(s.last()) =~= s);
        }
    }
}

/// Inserting into a descending run after every level at or above `v`
/// puts `v` exactly at the first strictly lower position.
proof fn lemma_insert_desc_at(s: Seq<i64>, v: i64, j: int)
    requires
        desc_sorted(s),
        0 <= j <= s.len(),
        forall|t: int| 0 <= t < j ==> #[trigger] s[t] >= v,
        j < s.len() ==> !(s[j] >= v),
    ensures
        insert_desc(s, v) == s.insert(j, v),
    decreases s.len(),
{
    if s.len() > 0 && !(s.last() >= v) {
        assert(j < s.len()) by {
            if j == s.len() {
                assert(s[s.len() - 1] >= v);
            }
        }
        assert(forall|a: int, b: int|
            #![trigger s.drop_last()[a], s.drop_last()[b]]
            0 <= a < b < s.drop_last().len() ==> s.drop_last()[a] >= s.drop_last()[b]);
        lemma_insert_desc_at(s.drop_last(), v, j);
        assert(insert_desc(s.drop_last(), v).push(s.last()) =~= s.insert(j, v));
    } else {
        assert(j == s.len()) by {
            if j < s.len() {
                if j < s.len() - 1 {
                    assert(s[j] >= s[s.len() - 1]);
                }
            }
        }
        assert(s.push(v) =~= s.insert(j, v));
    }
}

/// Number of elements of `s` that are at least `m`.
pub open spec fn count_ge(s: Seq<i64>, m: int) -> int
    decreases s.len(),
{
    if s.len() == 0 {
        0
    } else {
        count_ge(s.drop_last(), m) + if s.last() >= m {
            1int
        } else {
            0int
        }
    }
}

/// The lowest of the four corner elevations of horizontal cell (i, j).
pub open spec fn min4(g: Grid, i: int, j: int) -> int {
    let a = g.elev(i, j);
    let b = g.elev(i + 1, j);
    let c = g.elev(i, j + 1);
    let d = g.elev(i + 1, j + 1);
    let ab = if a <= b {
        a
    } else {
        b
    };
    let cd = if c <= d {
        c
    } else {
        d
    };
    if ab <= cd {
        ab
    } else {
        cd
    }
}

/// Number of active layers of column (i, j): one cell per level interval
/// whose upper level is at or above the column's lowest corner, capped at
/// the number of intervals.
pub open spec fn layers(g: Grid, zsd: Seq<i64>, i: int, j: int) -> int {
    let c = count_ge(zsd, min4(g, i, j));
    if c > zsd.len() - 1 {
        zsd.len() - 1
    } else {
        c
    }
}

/// Total number of cells in the columns that precede (i, j) in (i, j)
/// lexicographic order over the (nx-1) x (ny-1) horizontal cells.
pub open spec fn col_sum(g: Grid, zsd: Seq<i64>, i: int, j: int) -> int
    decreases i, j,
{
    if i < 0 || j < 0 {
        0
    } else if j == 0 {
        if i == 0 {
            0
        } else {
            col_sum(g, zsd, i - 1, (g.ny - 2) as int) + layers(g, zsd, i - 1, (g.ny - 2) as int)
        }
    } else {
        col_sum(g, zsd, i, j - 1) + layers(g, zsd, i, j - 1)
    }
}

/// The compact id of cell (i, j, k): cells are numbered in (i, j, k)
/// lexicographic order with no gaps.
pub open spec fn cell_rank(g: Grid, zsd: Seq<i64>, i: int, j: int, k: int) -> int {
    col_sum(g, zsd, i, j) + k
}

/// Total number of cells of the mesh.
pub open spec fn total_cells(g: Grid, zsd: Seq<i64>) -> int {
    col_sum(g, zsd, (g.nx - 1) as int, 0)
}

/// The provisional id map used while the mesh is being built.
pub open spec fn prov_cid(g: Grid) -> spec_fn(int, int, int) -> int {
    |a: int, b: int, c: int| prov_id(g, a, b, c)
}

/// The compact id map of the finished mesh.
pub open spec fn rank_cid(g: Grid, zsd: Seq<i64>) -> spec_fn(int, int, int) -> int {
    |a: int, b: int, c: int| cell_rank(g, zsd, a, b, c)
}

/// Some cell of the mesh has compact id `idx`.
pub open spec fn rank_onto(g: Grid, zsd: Seq<i64>, idx: int) -> bool {
    exists|i: int, j: int, k: int|
        valid_cell(g, zsd, i, j, k) && #[trigger] cell_rank(g, zsd, i, j, k) == idx
}

/// (i, j, k) addresses a cell: a horizontal cell inside the grid and an
/// active layer of its column.
pub open spec fn valid_cell(g: Grid, zsd: Seq<i64>, i: int, j: int, k: int) -> bool {
    &&& 0 <= i < g.nx - 1
    &&& 0 <= j < g.ny - 1
    &&& 0 <= k < layers(g, zsd, i, j)
}

/// The provisional (pre-compaction) id of slot (i, j, k).
pub open spec fn prov_id(g: Grid, i: int, j: int, k: int) -> int {
    (g.nx * g.ny) * k + g.ny * i + j
}

/// The coordinates of the cell behind wall `w` of cell (i, j, k), if that
/// wall is interior. Wall order: top, south, west, bottom, north, east.
pub open spec fn neighbor_cell(g: Grid, zsd: Seq<i64>, i: int, j: int, k: int, w: int) -> Option<
    (int, int, int),
> {
    if w == 0 {
        if k > 0 {
            Some((i, j, k - 1))
        } else {
            None
        }
    } else if w == 1 {
        if j > 0 && k < layers(g, zsd, i, j - 1) {
            Some((i, j - 1, k))
        } else {
            None
        }
    } else if w == 2 {
        if i > 0 && k < layers(g, zsd, i - 1, j) {
            Some((i - 1, j, k))
        } else {
            None
        }
    } else if w == 3 {
        if k < layers(g, zsd, i, j) - 1 {
            Some((i, j, k + 1))
        } else {
            None
        }
    } else if w == 4 {
        if j < g.ny - 2 && k < layers(g, zsd, i, j + 1) {
            Some((i, j + 1, k))
        } else {
            None
        }
    } else {
        if i < g.nx - 2 && k < layers(g, zsd, i + 1, j) {
            Some((i + 1, j, k))
        } else {
            None
        }
    }
}

/// The classification of wall `w` of cell (i, j, k): Sky above the
/// topmost layer, Inlet on a lateral domain edge, Terrain under the
/// bottommost layer and on a lateral face with no neighbouring cell
/// (the adjacent column is shallower there, so the face abuts ground),
/// Interior otherwise.
pub open spec fn wall_kind_at(g: Grid, zsd: Seq<i64>, i: int, j: int, k: int, w: int) -> WallKind {
    if neighbor_cell(g, zsd, i, j, k, w) is Some {
        WallKind::Interior
    } else if w == 0 {
        WallKind::Sky
    } else if w == 3 {
        WallKind::Terrain
    } else if (w == 1 && j == 0) || (w == 2 && i == 0) || (w == 4 && j == g.ny - 2) || (w == 5 && i
        == g.nx - 2) {
        WallKind::Inlet
    } else {
        WallKind::Terrain
    }
}

/// The 8 vertices of cell (i, j, k) in the fixed winding: the four
/// corners of the horizontal cell at the lower level `zsd[k + 1]` and at
/// the upper level `zsd[k]`.
pub open spec fn cell_vertices(g: Grid, zsd: Seq<i64>, i: int, j: int, k: int) -> Seq<Vector> {
    let xa = g.gx(i) as i64;
    let xb = g.gx(i + 1) as i64;
    let ya = g.gy(j) as i64;
    let yc = g.gy(j + 1) as i64;
    let z1 = zsd[k];
    let z2 = zsd[k + 1];
    seq![
        (Vector { x: xa, y: ya, z: z2 }),
        (Vector { x: xb, y: ya, z: z2 }),
        (Vector { x: xb, y: ya, z: z1 }),
        (Vector { x: xa, y: ya, z: z1 }),
        (Vector { x: xa, y: yc, z: z2 }),
        (Vector { x: xb, y: yc, z: z2 }),
        (Vector { x: xb, y: yc, z: z1 }),
        (Vector { x: xa, y: yc, z: z1 }),
    ]
}

/// The indices into the cell's vertex list of the four corners of wall
/// `w`, in the winding the builder uses.
pub open spec fn wall_corners(w: int) -> (int, int, int, int) {
    if w == 0 {
        (3, 7, 6, 2)
    } else if w == 1 {
        (3, 2, 1, 0)
    } else if w == 2 {
        (0, 4, 7, 3)
    } else if w == 3 {
        (0, 1, 5, 4)
    } else if w == 4 {
        (4, 5, 6, 7)
    } else {
        (1, 2, 6, 5)
    }
}

/// Wall `w` of cell (i, j, k), with ids taken through `cid`: the right
/// kind, the owning cell first and the neighbour (if any) second, and the
/// quad over the right four cell vertices with its centroid.
pub open spec fn is_wall_at(
    wl: Wall,
    g: Grid,
    zsd: Seq<i64>,
    i: int,
    j: int,
    k: int,
    w: int,
    cid: spec_fn(int, int, int) -> int,
) -> bool {
    let vs = cell_vertices(g, zsd, i, j, k);
    let c = wall_corners(w);
    &&& wl.kind == wall_kind_at(g, zsd, i, j, k, w)
    &&& wl.cells_id@[0] == Some(cid(i, j, k) as usize)
    &&& wl.cells_id@[1] == match neighbor_cell(g, zsd, i, j, k, w) {
        Some((a, b, c2)) => Some(cid(a, b, c2) as usize),
        None => None,
    }
    &&& (wl.poly matches Poly::Quad(q) && is_quad_of(q, vs[c.0], vs[c.1], vs[c.2], vs[c.3]))
    &&& is_centroid(wl.center, seq![vs[c.0], vs[c.1], vs[c.2], vs[c.3]])
}

/// The neighbour ids of the interior walls of `ws`, in wall order.
pub open spec fn interior_others(ws: Seq<Wall>) -> Seq<usize>
    decreases ws.len(),
{
    if ws.len() == 0 {
        Seq::empty()
    } else {
        let p = interior_others(ws.drop_last());
        if ws.last().kind is Interior && ws.last().cells_id@[1] is Some {
            p.push(ws.last().cells_id@[1]->0)
        } else {
            p
        }
    }
}

/// The cell at (i, j, k) with ids taken through `cid`: the documented
/// vertices, truncated centroid, ground height (truncated average of the
/// four corner elevations), exact volume, 6 walls and the interior
/// neighbour ids in wall order.
pub open spec fn is_cell_at(
    cl: Cell,
    g: Grid,
    zsd: Seq<i64>,
    i: int,
    j: int,
    k: int,
    cid: spec_fn(int, int, int) -> int,
) -> bool {
    &&& cl.id == cid(i, j, k)
    &&& cl.vertices@ == cell_vertices(g, zsd, i, j, k)
    &&& is_centroid(cl.center, cell_vertices(g, zsd, i, j, k))
    &&& cl.ground_height == trunc_div(
        g.elev(i, j) + g.elev(i + 1, j) + g.elev(i, j + 1) + g.elev(i + 1, j + 1),
        4,
    )
    &&& cl.volume == g.x_res * g.y_res * (zsd[k] - zsd[k + 1])
    &&& cl.walls@.len() == 6
    &&& forall|w: int| 0 <= w < 6 ==> is_wall_at(#[trigger] cl.walls@[w], g, zsd, i, j, k, w, cid)
    &&& cl.neighbours@ == interior_others(cl.walls@)
}

/// Builds a quad face from four in-range corners.
fn quad_wall(
    a: Vector,
    b: Vector,
    c: Vector,
    d: Vector,
    kind: WallKind,
    own: usize,
    other: Option<usize>,
) -> (w: Wall)
    requires
        vec_in_range(a, GEOM_BOUND as int),
        vec_in_range(b, GEOM_BOUND as int),
        vec_in_range(c, GEOM_BOUND as int),
        vec_in_range(d, GEOM_BOUND as int),
    ensures
        w.kind == kind,
        w.cells_id@[0] == Some(own),
        w.cells_id@[1] == other,
        (w.poly matches Poly::Quad(q) && is_quad_of(q, a, b, c, d)),
        is_centroid(w.center, seq![a, b, c, d]),
{
    let mut pts: Vec<Vector> = Vec::new();
    pts.push(a);
    pts.push(b);
    pts.push(c);
    pts.push(d);
    proof {
        assert(pts@ =~= seq![a, b, c, d]);
    }
    let w = Wall::new(&pts, kind, [Some(own), other]);
    proof {
        assert(w.cells_id@[0] == Some(own));
        assert(w.cells_id@[1] == other);
    }
    w
}

/// A count of matching elements lies between 0 and the sequence length.
proof fn lemma_count_ge_bounds(s: Seq<i64>, m: int)
    ensures
        0 <= count_ge(s, m) <= s.len(),
    decreases s.len(),
{
    if s.len() > 0 {
        lemma_count_ge_bounds(s.drop_last(), m);
    }
}

/// The layer count of any column lies between 0 and the interval count.
pub proof fn lemma_layers_bounds(g: Grid, zsd: Seq<i64>, i: int, j: int)
    requires
        zsd.len() >= 1,
    ensures
        0 <= layers(g, zsd, i, j) <= zsd.len() - 1,
{
    lemma_count_ge_bounds(zsd, min4(g, i, j));
}

/// Provisional ids of in-cap slots fit comfortably in a `usize`, and so
/// do the intermediate products that compute them.
proof fn lemma_prov_fits(g: Grid, i: int, j: int, k: int)
    requires
        1 <= g.nx <= MESH_DIM_CAP,
        1 <= g.ny <= MESH_DIM_CAP,
        0 <= i < g.nx,
        0 <= j < g.ny,
        0 <= k <= MESH_DIM_CAP,
    ensures
        g.nx * g.ny <= 1048576,
        0 <= (g.nx * g.ny) * k <= 1073741824,
        0 <= g.ny * i <= 1048576,
        0 <= prov_id(g, i, j, k) < 2147483648,
{
    assert(g.nx * g.ny <= 1048576 && 0 <= (g.nx * g.ny) * k <= 1073741824 && 0 <= g.ny * i
        <= 1048576 && 0 <= (g.nx * g.ny) * k + g.ny * i + j < 2147483648) by (nonlinear_arith)
        requires
            1 <= g.nx <= MESH_DIM_CAP,
            1 <= g.ny <= MESH_DIM_CAP,
            0 <= i < g.nx,
            0 <= j < g.ny,
            0 <= k <= MESH_DIM_CAP,
            MESH_DIM_CAP == 1024usize,
    ;
}

/// Two distinct slots have distinct provisional ids.
proof fn lemma_prov_injective(g: Grid, i1: int, j1: int, k1: int, i2: int, j2: int, k2: int)
    requires
        0 <= i1 < g.nx,
        0 <= j1 < g.ny,
        0 <= k1,
        0 <= i2 < g.nx,
        0 <= j2 < g.ny,
        0 <= k2,
        prov_id(g, i1, j1, k1) == prov_id(g, i2, j2, k2),
        g.nx >= 1,
        g.ny >= 1,
    ensures
        i1 == i2 && j1 == j2 && k1 == k2,
{
    let m = (g.nx * g.ny) as int;
    let d = g.ny as int;
    assert(0 <= d * i1 + j1 < m && 0 <= d * i2 + j2 < m) by (nonlinear_arith)
        requires
            0 <= i1 < g.nx,
            0 <= j1 < g.ny,
            0 <= i2 < g.nx,
            0 <= j2 < g.ny,
            d == g.ny as int,
            m == (g.nx * g.ny) as int,
    ;
    vstd::arithmetic::div_mod::lemma_fundamental_div_mod_converse(
        prov_id(g, i1, j1, k1),
        m,
        k1,
        d * i1 + j1,
    );
    vstd::arithmetic::div_mod::lemma_fundamental_div_mod_converse(
        prov_id(g, i2, j2, k2),
        m,
        k2,
        d * i2 + j2,
    );
    assert(d * i1 + j1 == i1 * d + j1 && d * i2 + j2 == i2 * d + j2 && prov_id(g, i1, j1, k1)
        == k1 * m + (d * i1 + j1) && prov_id(g, i2, j2, k2) == k2 * m + (d * i2 + j2))
        by (nonlinear_arith)
        requires
            m == (g.nx * g.ny) as int,
            d == g.ny as int,
            prov_id(g, i1, j1, k1) == (g.nx * g.ny) * k1 + g.ny * i1 + j1,
            prov_id(g, i2, j2, k2) == (g.nx * g.ny) * k2 + g.ny * i2 + j2,
    ;
    vstd::arithmetic::div_mod::lemma_fundamental_div_mod_converse(d * i1 + j1, d, i1, j1);
    vstd::arithmetic::div_mod::lemma_fundamental_div_mod_converse(d * i2 + j2, d, i2, j2);
}

/// Position `pos` of the cell list holds the cell of `owners[pos]`,
/// whose compact id is `pos`, with ids taken through `cid`.
pub open spec fn cells_match(
    cs: Seq<Cell>,
    owners: Seq<(int, int, int)>,
    g: Grid,
    zsd: Seq<i64>,
    cid: spec_fn(int, int, int) -> int,
) -> bool {
    &&& owners.len() == cs.len()
    &&& forall|pos: int|
        #![trigger owners[pos]]
        0 <= pos < cs.len() ==> {
            let t = owners[pos];
            &&& valid_cell(g, zsd, t.0, t.1, t.2)
            &&& cell_rank(g, zsd, t.0, t.1, t.2) == pos
            &&& is_cell_at(cs[pos], g, zsd, t.0, t.1, t.2, cid)
        }
}

/// Cell counts accumulated over columns are nonnegative.
proof fn lemma_col_sum_nonneg(g: Grid, zsd: Seq<i64>, i: int, j: int)
    requires
        zsd.len() >= 1,
    ensures
        col_sum(g, zsd, i, j) >= 0,
    decreases i, j,
{
    if i < 0 || j < 0 {
    } else if j == 0 {
        if i > 0 {
            lemma_col_sum_nonneg(g, zsd, i - 1, (g.ny - 2) as int);
            lemma_layers_bounds(g, zsd, i - 1, (g.ny - 2) as int);
        }
    } else {
        lemma_col_sum_nonneg(g, zsd, i, j - 1);
        lemma_layers_bounds(g, zsd, i, j - 1);
    }
}

/// Walking forward in column order only adds cells: the cells of column
/// (i1, j1) all come before the count accumulated at (i2, j2).
proof fn lemma_col_sum_walk(g: Grid, zsd: Seq<i64>, i1: int, j1: int, i2: int, j2: int)
    requires
        zsd.len() >= 1,
        g.ny >= 2,
        0 <= i1 < g.nx - 1,
        0 <= j1 < g.ny - 1,
        (0 <= i2 < g.nx - 1 && 0 <= j2 < g.ny - 1) || (i2 == g.nx - 1 && j2 == 0),
        i1 < i2 || (i1 == i2 && j1 < j2),
    ensures
        col_sum(g, zsd, i1, j1) + layers(g, zsd, i1, j1) <= col_sum(g, zsd, i2, j2),
    decreases i2, j2 + 1,
{
    if j2 == 0 {
        let pi = i2 - 1;
        let pj = (g.ny - 2) as int;
        if i1 == pi && j1 == pj {
        } else {
            lemma_col_sum_walk(g, zsd, i1, j1, pi, pj);
            lemma_layers_bounds(g, zsd, pi, pj);
        }
    } else {
        let pi = i2;
        let pj = j2 - 1;
        if i1 == pi && j1 == pj {
        } else {
            lemma_col_sum_walk(g, zsd, i1, j1, pi, pj);
            lemma_layers_bounds(g, zsd, pi, pj);
        }
    }
}

/// Every cell's compact id lies inside the mesh's id range.
pub proof fn lemma_rank_bounds(g: Grid, zsd: Seq<i64>, i: int, j: int, k: int)
    requires
        zsd.len() >= 1,
        g.ny >= 2,
        valid_cell(g, zsd, i, j, k),
    ensures
        0 <= cell_rank(g, zsd, i, j, k) < total_cells(g, zsd),
{
    lemma_col_sum_nonneg(g, zsd, i, j);
    lemma_col_sum_walk(g, zsd, i, j, (g.nx - 1) as int, 0);
}

/// Distinct cells have distinct compact ids.
pub proof fn lemma_rank_injective(
    g: Grid,
    zsd: Seq<i64>,
    i1: int,
    j1: int,
    k1: int,
    i2: int,
    j2: int,
    k2: int,
)
    requires
        zsd.len() >= 1,
        g.ny >= 2,
        valid_cell(g, zsd, i1, j1, k1),
        valid_cell(g, zsd, i2, j2, k2),
        cell_rank(g, zsd, i1, j1, k1) == cell_rank(g, zsd, i2, j2, k2),
    ensures
        i1 == i2 && j1 == j2 && k1 == k2,
{
    if i1 < i2 || (i1 == i2 && j1 < j2) {
        lemma_col_sum_walk(g, zsd, i1, j1, i2, j2);
    } else if i2 < i1 || (i2 == i1 && j2 < j1) {
        lemma_col_sum_walk(g, zsd, i2, j2, i1, j1);
    }
}

/// The cell behind an interior wall is itself a valid cell of the mesh.
proof fn lemma_neighbor_valid(g: Grid, zsd: Seq<i64>, i: int, j: int, k: int, w: int)
    requires
        zsd.len() >= 1,
        valid_cell(g, zsd, i, j, k),
        0 <= w < 6,
    ensures
        match neighbor_cell(g, zsd, i, j, k, w) {
            Some((a, b, c)) => valid_cell(g, zsd, a, b, c),
            None => true,
        },
{
    lemma_layers_bounds(g, zsd, i, j);
}

/// Provisional ids of valid slots lie inside the provisional id space.
proof fn lemma_prov_lt_nprov(g: Grid, i: int, j: int, k: int, nz: int)
    requires
        1 <= g.nx,
        1 <= g.ny,
        0 <= i < g.nx,
        0 <= j < g.ny,
        0 <= k <= nz - 2,
        2 <= nz,
    ensures
        0 <= prov_id(g, i, j, k) < (g.nx * g.ny) * (nz - 1),
{
    assert(0 <= (g.nx * g.ny) * k + g.ny * i + j < (g.nx * g.ny) * (nz - 1)) by (nonlinear_arith)
        requires
            1 <= g.nx,
            1 <= g.ny,
            0 <= i < g.nx,
            0 <= j < g.ny,
            0 <= k <= nz - 2,
            2 <= nz,
    ;
}

/// In-cap column positions fit the flat column table.
proof fn lemma_colpos_bounds(a: int, b: int, nx: int, ny: int)
    requires
        0 <= a < nx - 1,
        0 <= b < ny - 1,
        nx <= MESH_DIM_CAP,
        ny <= MESH_DIM_CAP,
    ensures
        0 <= a * (ny - 1) + b < (nx - 1) * (ny - 1),
        (nx - 1) * (ny - 1) <= 1046529,
{
    assert(0 <= a * (ny - 1) + b < (nx - 1) * (ny - 1) && (nx - 1) * (ny - 1) <= 1046529)
        by (nonlinear_arith)
        requires
            0 <= a < nx - 1,
            0 <= b < ny - 1,
            nx <= MESH_DIM_CAP,
            ny <= MESH_DIM_CAP,
            MESH_DIM_CAP == 1024usize,
    ;
}

/// Flat column positions grow with (i, j) order.
proof fn lemma_colpos_mono(a: int, b: int, i: int, j: int, ny: int)
    requires
        0 <= a,
        0 <= b < ny - 1,
        0 <= j,
        a < i || (a == i && b < j),
    ensures
        0 <= a * (ny - 1) + b < i * (ny - 1) + j,
{
    assert(0 <= a * (ny - 1) + b && a * (ny - 1) + b < i * (ny - 1) + j) by (nonlinear_arith)
        requires
            0 <= a,
            0 <= b < ny - 1,
            0 <= j,
            a < i || (a == i && b < j),
    ;
}

/// An exact copy of a vector of plain values.
fn copy_vec<T: Copy>(v: &Vec<T>) -> (r: Vec<T>)
    ensures
        r@ == v@,
{
    let n = v.len();
    let mut out: Vec<T> = Vec::with_capacity(n);
    let mut i: usize = 0;
    while i < n
        invariant
            n == v@.len(),
            i <= n,
            out@ =~= v@.take(i as int),
        decreases n - i,
    {
        out.push(v[i]);
        proof {
            assert(out@ =~= v@.take(i + 1));
        }
        i = i + 1;
    }
    proof {
        assert(out@ =~= v@);
    }
    out
}

/// Builds the cell of column (i, j) at layer `k`, with provisional ids.
/// `lay_here` is the column's own layer count and `lay_south`,
/// `lay_west`, `lay_north`, `lay_east` the neighbouring columns' (only
/// read where such a column exists).
#[verifier::rlimit(100)]
fn build_column_cell(
    terrain: &Grid,
    zs_desc: &Vec<i64>,
    i: usize,
    j: usize,
    k: usize,
    lay_here: usize,
    lay_south: usize,
    lay_west: usize,
    lay_north: usize,
    lay_east: usize,
) -> (c: Cell)
    requires
        terrain.wf(),
        terrain.nx <= MESH_DIM_CAP,
        terrain.ny <= MESH_DIM_CAP,
        2 <= zs_desc@.len() <= MESH_DIM_CAP,
        forall|t: int|
            0 <= t < zs_desc@.len() ==> -COORD_BOUND <= #[trigger] zs_desc@[t] <= COORD_BOUND,
        i + 1 < terrain.nx,
        j + 1 < terrain.ny,
        lay_here == layers(*terrain, zs_desc@, i as int, j as int),
        k < lay_here,
        j > 0 ==> lay_south == layers(*terrain, zs_desc@, i as int, j - 1),
        i > 0 ==> lay_west == layers(*terrain, zs_desc@, i - 1, j as int),
        j + 2 < terrain.ny ==> lay_north == layers(*terrain, zs_desc@, i as int, j + 1),
        i + 2 < terrain.nx ==> lay_east == layers(*terrain, zs_desc@, i + 1, j as int),
    ensures
        is_cell_at(c, *terrain, zs_desc@, i as int, j as int, k as int, prov_cid(*terrain)),
{
    let ghost g = *terrain;
    let ghost zsd = zs_desc@;
    proof {
        lemma_layers_bounds(g, zsd, i as int, j as int);
        lemma_prov_fits(g, i as int, j as int, k as int);
        if k > 0 {
            lemma_prov_fits(g, i as int, j as int, k - 1);
        }
        lemma_prov_fits(g, i as int, j as int, k + 1);
        if j > 0 {
            lemma_prov_fits(g, i as int, j - 1, k as int);
        }
        if i > 0 {
            lemma_prov_fits(g, i - 1, j as int, k as int);
        }
        lemma_prov_fits(g, i as int, j + 1, k as int);
        lemma_prov_fits(g, i + 1, j as int, k as int);
    }
    let xa = terrain.x(i);
    let xb = terrain.x(i + 1);
    let ya = terrain.y(j);
    let yc = terrain.y(j + 1);
    let ea = terrain.z(i, j);
    let eb = terrain.z(i + 1, j);
    let ec = terrain.z(i, j + 1);
    let ed = terrain.z(i + 1, j + 1);
    let z1 = zs_desc[k];
    let z2 = zs_desc[k + 1];

    let v0 = Vector { x: xa, y: ya, z: z2 };
    let v1 = Vector { x: xb, y: ya, z: z2 };
    let v2 = Vector { x: xb, y: ya, z: z1 };
    let v3 = Vector { x: xa, y: ya, z: z1 };
    let v4 = Vector { x: xa, y: yc, z: z2 };
    let v5 = Vector { x: xb, y: yc, z: z2 };
    let v6 = Vector { x: xb, y: yc, z: z1 };
    let v7 = Vector { x: xa, y: yc, z: z1 };

    let mut vertices: Vec<Vector> = Vec::new();
    vertices.push(v0);
    vertices.push(v1);
    vertices.push(v2);
    vertices.push(v3);
    vertices.push(v4);
    vertices.push(v5);
    vertices.push(v6);
    vertices.push(v7);
    proof {
        assert(vertices@ =~= cell_vertices(g, zsd, i as int, j as int, k as int));
        assert(forall|t: int|
            0 <= t < vertices@.len() ==> vec_in_range(#[trigger] vertices@[t], GEOM_BOUND as int));
    }
    let center = crate::geometry::average_points(&vertices);

    let ground_sum = ea + eb + ec + ed;
    proof {
        crate::numeric::lemma_trunc_div_bound(ground_sum as int, 4);
    }
    let ground_height = match ground_sum.checked_div(4) {
        Some(v) => v,
        None => 0,
    };

    let dx = xb - xa;
    let dy = yc - ya;
    let dz = z1 - z2;
    proof {
        assert(g.x_res * ((i + 1) as int) == g.x_res * (i as int) + g.x_res) by (nonlinear_arith);
        assert(g.y_res * ((j + 1) as int) == g.y_res * (j as int) + g.y_res) by (nonlinear_arith);
        assert(dx == g.x_res && dy == g.y_res);
        assert(g.x_res <= COORD_BOUND && g.y_res <= COORD_BOUND) by (nonlinear_arith)
            requires
                0 < g.x_res,
                0 < g.y_res,
                1 <= g.nx,
                1 <= g.ny,
                g.x_res * g.nx <= COORD_BOUND,
                g.y_res * g.ny <= COORD_BOUND,
        ;
        assert(0 <= (dx as int) * (dy as int) <= 1099511627776 && -2305843009213693952 <= ((
        dx as int) * (dy as int)) * (dz as int) <= 2305843009213693952) by (nonlinear_arith)
            requires
                0 < dx <= 1048576,
                0 < dy <= 1048576,
                -2097152 <= dz <= 2097152,
        ;
    }
    let volume = (dx * dy) * dz;

    let own = (terrain.nx * terrain.ny) * k + terrain.ny * i + j;
    proof {
        assert(own == prov_id(g, i as int, j as int, k as int));
    }

    let kind_up: WallKind;
    let other_up: Option<usize>;
    if k == 0 {
        kind_up = WallKind::Sky;
        other_up = None;
    } else {
        kind_up = WallKind::Interior;
        other_up = Some((terrain.nx * terrain.ny) * (k - 1) + terrain.ny * i + j);
    }
    let w0 = quad_wall(v3, v7, v6, v2, kind_up, own, other_up);

    let kind_south: WallKind;
    let other_south: Option<usize>;
    if j == 0 {
        kind_south = WallKind::Inlet;
        other_south = None;
    } else if k < lay_south {
        kind_south = WallKind::Interior;
        other_south = Some((terrain.nx * terrain.ny) * k + terrain.ny * i + (j - 1));
    } else {
        kind_south = WallKind::Terrain;
        other_south = None;
    }
    let w1 = quad_wall(v3, v2, v1, v0, kind_south, own, other_south);

    let kind_west: WallKind;
    let other_west: Option<usize>;
    if i == 0 {
        kind_west = WallKind::Inlet;
        other_west = None;
    } else if k < lay_west {
        kind_west = WallKind::Interior;
        other_west = Some((terrain.nx * terrain.ny) * k + terrain.ny * (i - 1) + j);
    } else {
        kind_west = WallKind::Terrain;
        other_west = None;
    }
    let w2 = quad_wall(v0, v4, v7, v3, kind_west, own, other_west);

    let kind_down: WallKind;
    let other_down: Option<usize>;
    if k == lay_here - 1 {
        kind_down = WallKind::Terrain;
        other_down = None;
    } else {
        kind_down = WallKind::Interior;
        other_down = Some((terrain.nx * terrain.ny) * (k + 1) + terrain.ny * i + j);
    }
    let w3 = quad_wall(v0, v1, v5, v4, kind_down, own, other_down);

    let kind_north: WallKind;
    let other_north: Option<usize>;
    if j + 2 >= terrain.ny {
        kind_north = WallKind::Inlet;
        other_north = None;
    } else if k < lay_north {
        kind_north = WallKind::Interior;
        other_north = Some((terrain.nx * terrain.ny) * k + terrain.ny * i + (j + 1));
    } else {
        kind_north = WallKind::Terrain;
        other_north = None;
    }
    let w4 = quad_wall(v4, v5, v6, v7, kind_north, own, other_north);

    let kind_east: WallKind;
    let other_east: Option<usize>;
    if i + 2 >= terrain.nx {
        kind_east = WallKind::Inlet;
        other_east = None;
    } else if k < lay_east {
        kind_east = WallKind::Interior;
        other_east = Some((terrain.nx * terrain.ny) * k + terrain.ny * (i + 1) + j);
    } else {
        kind_east = WallKind::Terrain;
        other_east = None;
    }
    let w5 = quad_wall(v1, v2, v6, v5, kind_east, own, other_east);

    let mut walls: Vec<Wall> = Vec::new();
    walls.push(w0);
    walls.push(w1);
    walls.push(w2);
    walls.push(w3);
    walls.push(w4);
    walls.push(w5);

    proof {
        assert(walls@ =~= seq![w0, w1, w2, w3, w4, w5]);
    }
    let mut neighbours: Vec<usize> = Vec::new();
    let mut t: usize = 0;
    while t < 6
        invariant
            walls@.len() == 6,
            t <= 6,
            neighbours@ == interior_others(walls@.take(t as int)),
            forall|q: int|
                0 <= q < 6 ==> ((#[trigger] walls@[q]).kind is Interior ==> walls@[q].cells_id@[1]
                    is Some),
        decreases 6 - t,
    {
        let w = walls[t];
        proof {
            assert(walls@.take(t + 1).drop_last() =~= walls@.take(t as int));
            assert(walls@.take(t + 1).last() == walls@[t as int]);
        }
        if matches!(w.kind, WallKind::Interior) {
            match w.cells_id[1] {
                Some(n) => neighbours.push(n),
                None => {},
            }
        }
        t = t + 1;
    }
    proof {
        assert(walls@.take(6) =~= walls@);
    }

    let c = Cell { id: own, vertices, walls, center, neighbours, ground_height, volume };
    proof {
        let cid = prov_cid(g);
        assert forall|w: int| 0 <= w < 6 implies is_wall_at(
            #[trigger] c.walls@[w],
            g,
            zsd,
            i as int,
            j as int,
            k as int,
            w,
            cid,
        ) by {
            if w == 0 {
                assert(c.walls@[0] == w0);
            } else if w == 1 {
                assert(c.walls@[1] == w1);
            } else if w == 2 {
                assert(c.walls@[2] == w2);
            } else if w == 3 {
                assert(c.walls@[3] == w3);
            } else if w == 4 {
                assert(c.walls@[4] == w4);
            } else {
                assert(c.walls@[5] == w5);
            }
        }
    }
    c
}


impl Mesh {
    /// Builds the terrain-conforming mesh: per horizontal cell one
    /// hexahedron for every active level interval (from the domain top
    /// down to the interval whose upper level still clears the column's
    /// lowest corner), walls classified per face, and finally a
    /// compaction pass that collects the populated slots, derives the
    /// old-to-new id remap and rewrites every cell and wall id through
    /// it, so that ids form the contiguous range 0..N in build order.
    ///
    /// The levels may arrive in any order: the builder sorts them from
    /// highest to lowest itself, so the mesh depends only on the set of
    /// level values. They must be pairwise distinct.
    ///
    /// Degenerate inputs (fewer than two levels, or a grid with fewer
    /// than two samples per direction) yield an empty mesh.
    pub fn naive_mesh(terrain: &Grid, zs: Vec<i64>) -> (mesh: Mesh)
        requires
            terrain.wf(),
            terrain.nx <= MESH_DIM_CAP,
            terrain.ny <= MESH_DIM_CAP,
            zs@.len() <= MESH_DIM_CAP,
            forall|a: int, b: int|
                #![trigger zs@[a], zs@[b]]
                0 <= a < b < zs@.len() ==> zs@[a] != zs@[b],
            forall|a: int| 0 <= a < zs@.len() ==> -COORD_BOUND <= #[trigger] zs@[a] <= COORD_BOUND,
        ensures
            zs@.len() < 2 || terrain.nx < 2 || terrain.ny < 2 ==> mesh.cells@.len() == 0,
            zs@.len() >= 2 && terrain.nx >= 2 && terrain.ny >= 2 ==> ({
                let g = *terrain;
                let zsd = sorted_desc(zs@);
                &&& mesh.cells@.len() == total_cells(g, zsd)
                &&& forall|idx: int|
                    0 <= idx < mesh.cells@.len() ==> (#[trigger] mesh.cells@[idx]).id == idx
                &&& forall|idx: int|
                    0 <= idx < mesh.cells@.len() ==> #[trigger] rank_onto(g, zsd, idx)
                &&& forall|i: int, j: int, k: int|
                    #![trigger valid_cell(g, zsd, i, j, k)]
                    valid_cell(g, zsd, i, j, k) ==> is_cell_at(
                        mesh.cells@[cell_rank(g, zsd, i, j, k)],
                        g,
                        zsd,
                        i,
                        j,
                        k,
                        rank_cid(g, zsd),
                    )
            }),
    {
        let nx = terrain.nx;
        let ny = terrain.ny;
        let nz = zs.len();
        if nz < 2 || nx < 2 || ny < 2 {
            return Mesh { cells: Vec::new() };
        }
        // Sort the levels from highest to lowest: the mesh depends only
        // on the set of level values, whatever order they arrive in.
        let mut zs_desc: Vec<i64> = Vec::with_capacity(nz);
        let mut t: usize = 0;
        proof {
            assert(zs_desc@ =~= sorted_desc(zs@.take(0)));
        }
        while t < nz
            invariant
                t <= nz,
                nz == zs@.len(),
                zs_desc@ == sorted_desc(zs@.take(t as int)),
                zs_desc@.len() == t,
                desc_sorted(zs_desc@),
            decreases nz - t,
        {
            let v = zs[t];
            let dlen = zs_desc.len();
            let mut j: usize = 0;
            while j < dlen && zs_desc[j] >= v
                invariant
                    dlen == zs_desc@.len(),
                    j <= dlen,
                    forall|q: int| 0 <= q < j ==> #[trigger] zs_desc@[q] >= v,
                decreases dlen - j,
            {
                j = j + 1;
            }
            let ghost old_desc = zs_desc@;
            zs_desc.insert(j, v);
            proof {
                lemma_insert_desc_at(old_desc, v, j as int);
                lemma_insert_desc_props(old_desc, v);
                assert(zs@.take(t + 1).drop_last() =~= zs@.take(t as int));
                assert(zs@.take(t + 1).last() == zs@[t as int]);
                assert(zs_desc@ == sorted_desc(zs@.take(t + 1)));
            }
            t = t + 1;
        }
        proof {
            assert(zs@.take(nz as int) =~= zs@);
        }
        let ghost g = *terrain;
        let ghost zsd = zs_desc@;
        proof {
            broadcast use vstd::seq_lib::group_to_multiset_ensures;

            lemma_sorted_desc_props(zs@);
            assert forall|q: int| 0 <= q < zsd.len() implies -COORD_BOUND <= #[trigger] zsd[q]
                <= COORD_BOUND by {
                assert(zsd.contains(zsd[q]));
                assert(zs@.to_multiset().count(zsd[q]) > 0);
                assert(zs@.contains(zsd[q]));
                let u = choose|u: int| 0 <= u < zs@.len() && zs@[u] == zsd[q];
            }
        }

        // Per-column active layer counts.
        let mut z_count: Vec<usize> = Vec::new();
        let mut i: usize = 0;
        while i < nx - 1
            invariant
                g == *terrain,
                terrain.wf(),
                nx == terrain.nx,
                ny == terrain.ny,
                2 <= nx <= MESH_DIM_CAP,
                2 <= ny <= MESH_DIM_CAP,
                2 <= nz <= MESH_DIM_CAP,
                zsd == zs_desc@,
                nz == zsd.len(),
                forall|q: int| 0 <= q < zsd.len() ==> -COORD_BOUND <= #[trigger] zsd[q] <= COORD_BOUND,
                i <= nx - 1,
                z_count@.len() == i * (ny - 1),
                forall|a: int, b: int|
                    #![trigger z_count@[a * (ny - 1) + b]]
                    0 <= a < i && 0 <= b < ny - 1 ==> z_count@[a * (ny - 1) + b] == layers(
                        g,
                        zsd,
                        a,
                        b,
                    ),
            decreases nx - 1 - i,
        {
            let mut j: usize = 0;
            while j < ny - 1
                invariant
                    g == *terrain,
                    terrain.wf(),
                    nx == terrain.nx,
                    ny == terrain.ny,
                    2 <= nx <= MESH_DIM_CAP,
                    2 <= ny <= MESH_DIM_CAP,
                    2 <= nz <= MESH_DIM_CAP,
                    zsd == zs_desc@,
                    nz == zsd.len(),
                    forall|q: int| 0 <= q < zsd.len() ==> -COORD_BOUND <= #[trigger] zsd[q] <= COORD_BOUND,
                    i < nx - 1,
                    j <= ny - 1,
                    z_count@.len() == i * (ny - 1) + j,
                    forall|a: int, b: int|
                        #![trigger z_count@[a * (ny - 1) + b]]
                        0 <= a < nx - 1 && 0 <= b < ny - 1 && (a < i || (a == i && b < j))
                            ==> z_count@[a * (ny - 1) + b] == layers(g, zsd, a, b),
                decreases ny - 1 - j,
            {
                let ea = terrain.z(i, j);
                let eb = terrain.z(i + 1, j);
                let ec = terrain.z(i, j + 1);
                let ed = terrain.z(i + 1, j + 1);
                let ab = if ea <= eb {
                    ea
                } else {
                    eb
                };
                let cd = if ec <= ed {
                    ec
                } else {
                    ed
                };
                let m = if ab <= cd {
                    ab
                } else {
                    cd
                };
                proof {
                    assert(m as int == min4(g, i as int, j as int));
                }
                let mut cnt: usize = 0;
                let mut q: usize = 0;
                while q < nz
                    invariant
                        zsd == zs_desc@,
                        nz == zsd.len(),
                        q <= nz,
                        cnt <= q,
                        cnt == count_ge(zsd.take(q as int), m as int),
                    decreases nz - q,
                {
                    proof {
                        assert(zsd.take(q + 1).drop_last() =~= zsd.take(q as int));
                        assert(zsd.take(q + 1).last() == zsd[q as int]);
                    }
                    if zs_desc[q] >= m {
                        cnt = cnt + 1;
                    }
                    q = q + 1;
                }
                proof {
                    assert(zsd.take(nz as int) =~= zsd);
                }
                let lay = if cnt > nz - 1 {
                    nz - 1
                } else {
                    cnt
                };
                proof {
                    assert(lay == layers(g, zsd, i as int, j as int));
                    lemma_colpos_bounds(i as int, j as int, nx as int, ny as int);
                }
                let ghost old_zc = z_count@;
                z_count.push(lay);
                proof {
                    assert(z_count@[i as int * (ny - 1) + j as int] == layers(
                        g,
                        zsd,
                        i as int,
                        j as int,
                    ));
                    assert forall|a: int, b: int|
                        #![trigger z_count@[a * (ny - 1) + b]]
                        0 <= a < nx - 1 && 0 <= b < ny - 1 && (a < i || (a == i && b < j
                            + 1)) implies z_count@[a * (ny - 1) + b] == layers(g, zsd, a, b) by {
                        if a < i || (a == i && b < j) {
                            lemma_colpos_mono(a, b, i as int, j as int, ny as int);
                            assert(old_zc[a * (ny - 1) + b] == layers(g, zsd, a, b));
                            assert(z_count@[a * (ny - 1) + b] == old_zc[a * (ny - 1) + b]);
                        }
                    }
                }
                j = j + 1;
            }
            proof {
                assert((i + 1) as int * (ny - 1) == i as int * (ny - 1) + (ny - 1))
                    by (nonlinear_arith);
            }
            i = i + 1;
        }

        // Build the cells with provisional ids, in (i, j, k) order.
        let mut cells: Vec<Cell> = Vec::new();
        let ghost mut owners: Seq<(int, int, int)> = Seq::empty();
        let mut i: usize = 0;
        while i < nx - 1
            invariant
                g == *terrain,
                terrain.wf(),
                nx == terrain.nx,
                ny == terrain.ny,
                2 <= nx <= MESH_DIM_CAP,
                2 <= ny <= MESH_DIM_CAP,
                2 <= nz <= MESH_DIM_CAP,
                zsd == zs_desc@,
                nz == zsd.len(),
                forall|q: int| 0 <= q < zsd.len() ==> -COORD_BOUND <= #[trigger] zsd[q] <= COORD_BOUND,
                z_count@.len() == (nx - 1) * (ny - 1),
                forall|a: int, b: int|
                    #![trigger z_count@[a * (ny - 1) + b]]
                    0 <= a < nx - 1 && 0 <= b < ny - 1 ==> z_count@[a * (ny - 1) + b] == layers(
                        g,
                        zsd,
                        a,
                        b,
                    ),
                i <= nx - 1,
                cells@.len() == col_sum(g, zsd, i as int, 0),
                cells_match(cells@, owners, g, zsd, prov_cid(g)),
            decreases nx - 1 - i,
        {
            let mut j: usize = 0;
            while j < ny - 1
                invariant
                    g == *terrain,
                    terrain.wf(),
                    nx == terrain.nx,
                    ny == terrain.ny,
                    2 <= nx <= MESH_DIM_CAP,
                    2 <= ny <= MESH_DIM_CAP,
                    2 <= nz <= MESH_DIM_CAP,
                    zsd == zs_desc@,
                    nz == zsd.len(),
                    forall|q: int| 0 <= q < zsd.len() ==> -COORD_BOUND <= #[trigger] zsd[q] <= COORD_BOUND,
                    z_count@.len() == (nx - 1) * (ny - 1),
                    forall|a: int, b: int|
                        #![trigger z_count@[a * (ny - 1) + b]]
                        0 <= a < nx - 1 && 0 <= b < ny - 1 ==> z_count@[a * (ny - 1) + b]
                            == layers(g, zsd, a, b),
                    i < nx - 1,
                    j <= ny - 1,
                    cells@.len() == col_sum(g, zsd, i as int, j as int),
                    cells_match(cells@, owners, g, zsd, prov_cid(g)),
                decreases ny - 1 - j,
            {
                proof {
                    lemma_colpos_bounds(i as int, j as int, nx as int, ny as int);
                    if j > 0 {
                        lemma_colpos_bounds(i as int, j - 1, nx as int, ny as int);
                    }
                    if i > 0 {
                        lemma_colpos_bounds(i - 1, j as int, nx as int, ny as int);
                    }
                    if j + 2 < ny {
                        lemma_colpos_bounds(i as int, j + 1, nx as int, ny as int);
                    }
                    if i + 2 < nx {
                        lemma_colpos_bounds(i + 1, j as int, nx as int, ny as int);
                    }
                }
                let lay = z_count[i * (ny - 1) + j];
                let lay_s = if j > 0 {
                    z_count[i * (ny - 1) + (j - 1)]
                } else {
                    0
                };
                let lay_w = if i > 0 {
                    z_count[(i - 1) * (ny - 1) + j]
                } else {
                    0
                };
                let lay_n = if j + 2 < ny {
                    z_count[i * (ny - 1) + (j + 1)]
                } else {
                    0
                };
                let lay_e = if i + 2 < nx {
                    z_count[(i + 1) * (ny - 1) + j]
                } else {
                    0
                };
                let mut k: usize = 0;
                while k < lay
                    invariant
                        g == *terrain,
                        terrain.wf(),
                        nx == terrain.nx,
                        ny == terrain.ny,
                        2 <= nx <= MESH_DIM_CAP,
                        2 <= ny <= MESH_DIM_CAP,
                        2 <= nz <= MESH_DIM_CAP,
                        zsd == zs_desc@,
                        nz == zsd.len(),
                        forall|q: int| 0 <= q < zsd.len() ==> -COORD_BOUND <= #[trigger] zsd[q] <= COORD_BOUND,
                        i < nx - 1,
                        j < ny - 1,
                        lay == layers(g, zsd, i as int, j as int),
                        j > 0 ==> lay_s == layers(g, zsd, i as int, j - 1),
                        i > 0 ==> lay_w == layers(g, zsd, i - 1, j as int),
                        j + 2 < ny ==> lay_n == layers(g, zsd, i as int, j + 1),
                        i + 2 < nx ==> lay_e == layers(g, zsd, i + 1, j as int),
                        k <= lay,
                        cells@.len() == col_sum(g, zsd, i as int, j as int) + k,
                        cells_match(cells@, owners, g, zsd, prov_cid(g)),
                    decreases lay - k,
                {
                    let c = build_column_cell(
                        terrain,
                        &zs_desc,
                        i,
                        j,
                        k,
                        lay,
                        lay_s,
                        lay_w,
                        lay_n,
                        lay_e,
                    );
                    let ghost old_cells = cells@;
                    cells.push(c);
                    proof {
                        owners = owners.push((i as int, j as int, k as int));
                        assert(valid_cell(g, zsd, i as int, j as int, k as int));
                        assert(cell_rank(g, zsd, i as int, j as int, k as int) == old_cells.len());
                        assert forall|pos: int|
                            #![trigger owners[pos]]
                            0 <= pos < cells@.len() implies {
                            let t = owners[pos];
                            &&& valid_cell(g, zsd, t.0, t.1, t.2)
                            &&& cell_rank(g, zsd, t.0, t.1, t.2) == pos
                            &&& is_cell_at(cells@[pos], g, zsd, t.0, t.1, t.2, prov_cid(g))
                        } by {
                            if pos < old_cells.len() {
                                assert(cells@[pos] == old_cells[pos]);
                            } else {
                                assert(cells@[pos] == c);
                                assert(owners[pos] == (i as int, j as int, k as int));
                            }
                        }
                    }
                    k = k + 1;
                }
                j = j + 1;
            }
            i = i + 1;
        }
        let ghost n_total = total_cells(g, zsd);
        proof {
            assert(cells@.len() == n_total);
        }

        // Old-id to new-id remap over the provisional id space.
        proof {
            assert(nx * ny <= 1048576 && (nx * ny) * (nz as int - 1) <= 1073741824)
                by (nonlinear_arith)
                requires
                    2 <= nx <= MESH_DIM_CAP,
                    2 <= ny <= MESH_DIM_CAP,
                    2 <= nz <= MESH_DIM_CAP,
                    MESH_DIM_CAP == 1024usize,
            ;
        }
        let nxny = nx * ny;
        let nprov = nxny * (nz - 1);
        let mut new_idx: Vec<usize> = Vec::with_capacity(nprov);
        let mut t: usize = 0;
        while t < nprov
            invariant
                t <= nprov,
                new_idx@.len() == t,
            decreases nprov - t,
        {
            new_idx.push(0);
            t = t + 1;
        }
        let n_cells = cells.len();
        let mut idx: usize = 0;
        while idx < n_cells
            invariant
                g == *terrain,
                2 <= ny,
                2 <= nz == zsd.len(),
                nprov as int == (g.nx * g.ny) * (nz as int - 1),
                n_cells == cells@.len(),
                cells@.len() == total_cells(g, zsd),
                new_idx@.len() == nprov,
                idx <= n_cells,
                cells_match(cells@, owners, g, zsd, prov_cid(g)),
                forall|a: int, b: int, c: int|
                    #![trigger valid_cell(g, zsd, a, b, c)]
                    valid_cell(g, zsd, a, b, c) && 0 <= cell_rank(g, zsd, a, b, c) < idx
                        ==> new_idx@[prov_id(g, a, b, c)] == cell_rank(g, zsd, a, b, c),
            decreases n_cells - idx,
        {
            let ghost (ti, tj, tk) = owners[idx as int];
            proof {
                assert(valid_cell(g, zsd, ti, tj, tk) && cell_rank(g, zsd, ti, tj, tk) == idx
                    && is_cell_at(cells@[idx as int], g, zsd, ti, tj, tk, prov_cid(g)));
                assert(cells@[idx as int].id == prov_id(g, ti, tj, tk));
                lemma_layers_bounds(g, zsd, ti, tj);
                lemma_prov_lt_nprov(g, ti, tj, tk, nz as int);
            }
            let cid = cells[idx].id;
            new_idx.set(cid, idx);
            proof {
                assert forall|a: int, b: int, c: int|
                    #![trigger valid_cell(g, zsd, a, b, c)]
                    valid_cell(g, zsd, a, b, c) && 0 <= cell_rank(g, zsd, a, b, c) < idx
                        + 1 implies new_idx@[prov_id(g, a, b, c)] == cell_rank(
                    g,
                    zsd,
                    a,
                    b,
                    c,
                ) by {
                    lemma_layers_bounds(g, zsd, a, b);
                    lemma_prov_lt_nprov(g, a, b, c, nz as int);
                    if cell_rank(g, zsd, a, b, c) < idx {
                        if prov_id(g, a, b, c) == prov_id(g, ti, tj, tk) {
                            lemma_prov_injective(g, a, b, c, ti, tj, tk);
                        }
                    } else {
                        lemma_rank_injective(g, zsd, a, b, c, ti, tj, tk);
                    }
                }
            }
            idx = idx + 1;
        }

        // Rewrite every cell id and wall id through the remap, collecting
        // the compacted cells.
        let mut out: Vec<Cell> = Vec::new();
        let mut idx: usize = 0;
        while idx < n_cells
            invariant
                g == *terrain,
                2 <= ny,
                2 <= nz == zsd.len(),
                nprov as int == (g.nx * g.ny) * (nz as int - 1),
                n_cells == cells@.len(),
                cells@.len() == total_cells(g, zsd),
                new_idx@.len() == nprov,
                idx <= n_cells,
                out@.len() == idx,
                cells_match(cells@, owners, g, zsd, prov_cid(g)),
                forall|a: int, b: int, c: int|
                    #![trigger valid_cell(g, zsd, a, b, c)]
                    valid_cell(g, zsd, a, b, c) && 0 <= cell_rank(g, zsd, a, b, c) < n_cells
                        ==> new_idx@[prov_id(g, a, b, c)] == cell_rank(g, zsd, a, b, c),
                forall|pos: int| 0 <= pos < idx ==> (#[trigger] out@[pos]).id == pos,
                cells_match(out@, owners.take(idx as int), g, zsd, rank_cid(g, zsd)),
            decreases n_cells - idx,
        {
            let ghost (ti, tj, tk) = owners[idx as int];
            proof {
                assert(valid_cell(g, zsd, ti, tj, tk) && cell_rank(g, zsd, ti, tj, tk) == idx
                    && is_cell_at(cells@[idx as int], g, zsd, ti, tj, tk, prov_cid(g)));
                lemma_layers_bounds(g, zsd, ti, tj);
                lemma_prov_lt_nprov(g, ti, tj, tk, nz as int);
            }
            let src = &cells[idx];
            let new_id = new_idx[src.id];
            let wn = src.walls.len();
            let mut new_walls: Vec<Wall> = Vec::new();
            let mut w: usize = 0;
            while w < wn
                invariant
                    g == *terrain,
                    2 <= ny,
                    2 <= nz == zsd.len(),
                    nprov as int == (g.nx * g.ny) * (nz as int - 1),
                    new_idx@.len() == nprov,
                    n_cells == cells@.len(),
                    idx < n_cells,
                    src == &cells@[idx as int],
                    valid_cell(g, zsd, ti, tj, tk),
                    cell_rank(g, zsd, ti, tj, tk) == idx,
                    is_cell_at(cells@[idx as int], g, zsd, ti, tj, tk, prov_cid(g)),
                    forall|a: int, b: int, c: int|
                        #![trigger valid_cell(g, zsd, a, b, c)]
                        valid_cell(g, zsd, a, b, c) && 0 <= cell_rank(g, zsd, a, b, c)
                            < n_cells ==> new_idx@[prov_id(g, a, b, c)] == cell_rank(
                            g,
                            zsd,
                            a,
                            b,
                            c,
                        ),
                    n_cells as int == total_cells(g, zsd),
                    wn == 6,
                    w <= 6,
                    new_walls@.len() == w,
                    forall|q: int|
                        0 <= q < w ==> is_wall_at(
                            #[trigger] new_walls@[q],
                            g,
                            zsd,
                            ti,
                            tj,
                            tk,
                            q,
                            rank_cid(g, zsd),
                        ),
                decreases wn - w,
            {
                proof {
                    assert(is_wall_at(
                        cells@[idx as int].walls@[w as int],
                        g,
                        zsd,
                        ti,
                        tj,
                        tk,
                        w as int,
                        prov_cid(g),
                    ));
                    lemma_layers_bounds(g, zsd, ti, tj);
                    lemma_prov_lt_nprov(g, ti, tj, tk, nz as int);
                    lemma_neighbor_valid(g, zsd, ti, tj, tk, w as int);
                    match neighbor_cell(g, zsd, ti, tj, tk, w as int) {
                        Some((a, b, c)) => {
                            lemma_layers_bounds(g, zsd, a, b);
                            lemma_prov_lt_nprov(g, a, b, c, nz as int);
                            lemma_rank_bounds(g, zsd, a, b, c);
                        },
                        None => {},
                    }
                    lemma_rank_bounds(g, zsd, ti, tj, tk);
                }
                let ow = src.walls[w];
                let nid0 = match ow.cells_id[0] {
                    Some(p) => Some(new_idx[p]),
                    None => None,
                };
                let nid1 = match ow.cells_id[1] {
                    Some(p) => Some(new_idx[p]),
                    None => None,
                };
                let nw = Wall { poly: ow.poly, kind: ow.kind, cells_id: [nid0, nid1], center: ow.center };
                new_walls.push(nw);
                proof {
                    assert(nw.cells_id@[0] == nid0 && nw.cells_id@[1] == nid1);
                    assert((rank_cid(g, zsd))(ti, tj, tk) == cell_rank(g, zsd, ti, tj, tk));
                    assert(ow.cells_id@[0] == Some(prov_id(g, ti, tj, tk) as usize));
                    assert(nid0 == Some(cell_rank(g, zsd, ti, tj, tk) as usize));
                    match neighbor_cell(g, zsd, ti, tj, tk, w as int) {
                        Some((a, b, c)) => {
                            assert(valid_cell(g, zsd, a, b, c));
                            lemma_rank_bounds(g, zsd, a, b, c);
                            assert((rank_cid(g, zsd))(a, b, c) == cell_rank(g, zsd, a, b, c));
                            assert(ow.cells_id@[1] == Some(prov_id(g, a, b, c) as usize));
                            assert(new_idx@[prov_id(g, a, b, c)] == cell_rank(g, zsd, a, b, c));
                            assert(nid1 == Some(cell_rank(g, zsd, a, b, c) as usize));
                        },
                        None => {
                            assert(ow.cells_id@[1] is None);
                            assert(nid1 is None);
                        },
                    }
                    assert(is_wall_at(nw, g, zsd, ti, tj, tk, w as int, rank_cid(g, zsd)));
                }
                w = w + 1;
            }
            let mut neighbours: Vec<usize> = Vec::new();
            let mut t2: usize = 0;
            while t2 < 6
                invariant
                    g == *terrain,
                    2 <= nz == zsd.len(),
                    valid_cell(g, zsd, ti, tj, tk),
                    new_walls@.len() == 6,
                    t2 <= 6,
                    neighbours@ == interior_others(new_walls@.take(t2 as int)),
                    forall|q: int|
                        0 <= q < 6 ==> is_wall_at(
                            #[trigger] new_walls@[q],
                            g,
                            zsd,
                            ti,
                            tj,
                            tk,
                            q,
                            rank_cid(g, zsd),
                        ),
                decreases 6 - t2,
            {
                let w2 = new_walls[t2];
                proof {
                    assert(new_walls@.take(t2 + 1).drop_last() =~= new_walls@.take(t2 as int));
                    assert(new_walls@.take(t2 + 1).last() == new_walls@[t2 as int]);
                    assert(is_wall_at(new_walls@[t2 as int], g, zsd, ti, tj, tk, t2 as int, rank_cid(g, zsd)));
                }
                if matches!(w2.kind, WallKind::Interior) {
                    match w2.cells_id[1] {
                        Some(n) => neighbours.push(n),
                        None => {},
                    }
                }
                t2 = t2 + 1;
            }
            proof {
                assert(new_walls@.take(6) =~= new_walls@);
            }
            let vertices = copy_vec(&src.vertices);
            let nc = Cell {
                id: new_id,
                vertices,
                walls: new_walls,
                center: src.center,
                neighbours,
                ground_height: src.ground_height,
                volume: src.volume,
            };
            let ghost old_out = out@;
            out.push(nc);
            proof {
                assert(nc.id == idx);
                assert forall|pos: int| 0 <= pos < idx + 1 implies (#[trigger] out@[pos]).id
                    == pos by {
                    if pos < old_out.len() {
                        assert(out@[pos] == old_out[pos]);
                        assert(old_out[pos].id == pos);
                    }
                }
                assert forall|pos: int|
                    #![trigger owners.take(idx + 1)[pos]]
                    0 <= pos < out@.len() implies {
                    let t = owners.take(idx + 1)[pos];
                    &&& valid_cell(g, zsd, t.0, t.1, t.2)
                    &&& cell_rank(g, zsd, t.0, t.1, t.2) == pos
                    &&& is_cell_at(out@[pos], g, zsd, t.0, t.1, t.2, rank_cid(g, zsd))
                } by {
                    assert(owners.take(idx + 1)[pos] == owners[pos]);
                    if pos < old_out.len() {
                        assert(owners.take(idx as int)[pos] == owners[pos]);
                        assert(out@[pos] == old_out[pos]);
                    } else {
                        assert(out@[pos] == nc);
                        assert(owners[pos] == (ti, tj, tk));
                        assert(is_cell_at(out@[pos], g, zsd, ti, tj, tk, rank_cid(g, zsd)));
                    }
                }
            }
            idx = idx + 1;
        }
        let mesh = Mesh { cells: out };
        proof {
            assert(owners.take(n_cells as int) =~= owners);
            assert forall|idx2: int|
                0 <= idx2 < mesh.cells@.len() implies #[trigger] rank_onto(
                *terrain,
                sorted_desc(zs@),
                idx2,
            ) by {
                let t = owners[idx2];
                assert(zsd == sorted_desc(zs@));
                assert(g == *terrain);
                assert(valid_cell(*terrain, sorted_desc(zs@), t.0, t.1, t.2) && cell_rank(
                    *terrain,
                    sorted_desc(zs@),
                    t.0,
                    t.1,
                    t.2,
                ) == idx2);
            }
            assert forall|a: int, b: int, c: int|
                #![trigger valid_cell(g, zsd, a, b, c)]
                valid_cell(g, zsd, a, b, c) implies is_cell_at(
                mesh.cells@[cell_rank(g, zsd, a, b, c)],
                g,
                zsd,
                a,
                b,
                c,
                rank_cid(g, zsd),
            ) by {
                lemma_rank_bounds(g, zsd, a, b, c);
                let pos = cell_rank(g, zsd, a, b, c);
                let t = owners[pos];
                lemma_rank_injective(g, zsd, a, b, c, t.0, t.1, t.2);
            }
        }
        mesh
    }
}

/// All elements at least `m` count fully.
proof fn lemma_count_ge_all(s: Seq<i64>, m: int)
    requires
        forall|q: int| 0 <= q < s.len() ==> #[trigger] s[q] >= m,
    ensures
        count_ge(s, m) == s.len(),
    decreases s.len(),
{
    if s.len() > 0 {
        assert(forall|q: int| 0 <= q < s.drop_last().len() ==> #[trigger] s.drop_last()[q] >= m);
        lemma_count_ge_all(s.drop_last(), m);
    }
}

/// Compaction law: in a generated mesh the cell ids are exactly the
/// contiguous range 0..N — the cell stored at position `idx` carries id
/// `idx`, so there are no duplicates and no id outside the range — and
/// every wall names its owning cell first, an interior wall's second id
/// is another valid cell id, and a boundary wall has no second id.
pub proof fn lemma_mesh_compaction(g: Grid, zsd: Seq<i64>, m: Mesh)
    requires
        zsd.len() >= 1,
        g.ny >= 2,
        m.cells@.len() == total_cells(g, zsd),
        forall|idx: int| 0 <= idx < m.cells@.len() ==> (#[trigger] m.cells@[idx]).id == idx,
        forall|idx: int| 0 <= idx < m.cells@.len() ==> #[trigger] rank_onto(g, zsd, idx),
        forall|i: int, j: int, k: int|
            #![trigger valid_cell(g, zsd, i, j, k)]
            valid_cell(g, zsd, i, j, k) ==> is_cell_at(
                m.cells@[cell_rank(g, zsd, i, j, k)],
                g,
                zsd,
                i,
                j,
                k,
                rank_cid(g, zsd),
            ),
    ensures
        forall|i1: int, i2: int|
            0 <= i1 < i2 < m.cells@.len() ==> (#[trigger] m.cells@[i1]).id != (
            #[trigger] m.cells@[i2]).id,
        forall|idx: int|
            0 <= idx < m.cells@.len() ==> 0 <= (#[trigger] m.cells@[idx]).id < m.cells@.len(),
        forall|idx: int, w: int|
            #![trigger m.cells@[idx].walls@[w]]
            0 <= idx < m.cells@.len() && 0 <= w < m.cells@[idx].walls@.len() ==> {
                let wl = m.cells@[idx].walls@[w];
                &&& wl.cells_id@[0] == Some(m.cells@[idx].id as usize)
                &&& (wl.kind == WallKind::Interior ==> (wl.cells_id@[1] matches Some(o) && 0 <= o
                    < m.cells@.len()))
                &&& (wl.kind != WallKind::Interior ==> wl.cells_id@[1] is None)
            },
{
    assert forall|idx: int, w: int|
        #![trigger m.cells@[idx].walls@[w]]
        0 <= idx < m.cells@.len() && 0 <= w < m.cells@[idx].walls@.len() implies {
        let wl = m.cells@[idx].walls@[w];
        &&& wl.cells_id@[0] == Some(m.cells@[idx].id as usize)
        &&& (wl.kind == WallKind::Interior ==> (wl.cells_id@[1] matches Some(o) && 0 <= o
            < m.cells@.len()))
        &&& (wl.kind != WallKind::Interior ==> wl.cells_id@[1] is None)
    } by {
        assert(rank_onto(g, zsd, idx));
        let (a, b, c) = choose|a: int, b: int, c: int|
            valid_cell(g, zsd, a, b, c) && #[trigger] cell_rank(g, zsd, a, b, c) == idx;
        assert(is_cell_at(m.cells@[idx], g, zsd, a, b, c, rank_cid(g, zsd)));
        assert(is_wall_at(m.cells@[idx].walls@[w], g, zsd, a, b, c, w, rank_cid(g, zsd)));
        lemma_neighbor_valid(g, zsd, a, b, c, w);
        match neighbor_cell(g, zsd, a, b, c, w) {
            Some((a2, b2, c2)) => {
                lemma_rank_bounds(g, zsd, a2, b2, c2);
            },
            None => {},
        }
    }
}

/// Flat-terrain law: when the elevation is the same constant everywhere
/// and lies at or below the second level from the bottom, every column
/// has exactly one cell per level interval. (A constant elevation above
/// that level truncates columns instead, so it is left out here.)
pub proof fn lemma_flat_terrain_layers(g: Grid, zsd: Seq<i64>, e: i64, i: int, j: int)
    requires
        g.wf(),
        zsd.len() >= 2,
        desc_sorted(zsd),
        e <= zsd[zsd.len() - 2],
        forall|t: int| 0 <= t < g.elevations@.len() ==> #[trigger] g.elevations@[t] == e,
        0 <= i < g.nx - 1,
        0 <= j < g.ny - 1,
    ensures
        layers(g, zsd, i, j) == zsd.len() - 1,
{
    crate::terrain::lemma_flat_index(i, j, g.nx as int, g.ny as int);
    crate::terrain::lemma_flat_index(i + 1, j, g.nx as int, g.ny as int);
    crate::terrain::lemma_flat_index(i, j + 1, g.nx as int, g.ny as int);
    crate::terrain::lemma_flat_index(i + 1, j + 1, g.nx as int, g.ny as int);
    assert(min4(g, i, j) == e);
    assert forall|q: int| 0 <= q < zsd.drop_last().len() implies #[trigger] zsd.drop_last()[q]
        >= e as int by {
        assert(zsd.drop_last()[q] == zsd[q]);
        if q < zsd.len() - 2 {
            assert(zsd[q] >= zsd[zsd.len() - 2]);
        }
    }
    lemma_count_ge_all(zsd.drop_last(), e as int);
    assert(count_ge(zsd, e as int) >= zsd.len() - 1);
    lemma_count_ge_bounds(zsd, e as int);
}

/// With the same layer count `l` in every column, the accumulated cell
/// count is the position in column order times `l`.
proof fn lemma_const_layers_col_sum(g: Grid, zsd: Seq<i64>, l: int, i: int, j: int)
    requires
        g.ny >= 2,
        forall|a: int, b: int|
            0 <= a < g.nx - 1 && 0 <= b < g.ny - 1 ==> #[trigger] layers(g, zsd, a, b) == l,
        (0 <= i < g.nx - 1 && 0 <= j < g.ny - 1) || (0 <= i <= g.nx - 1 && j == 0),
    ensures
        col_sum(g, zsd, i, j) == (i * ((g.ny - 1) as int) + j) * l,
    decreases i, j,
{
    if j == 0 {
        if i == 0 {
            assert((0 * ((g.ny - 1) as int) + 0) * l == 0) by (nonlinear_arith);
        } else {
            lemma_const_layers_col_sum(g, zsd, l, i - 1, (g.ny - 2) as int);
            assert(((i - 1) * ((g.ny - 1) as int) + (g.ny - 2)) * l + l == (i * ((g.ny
                - 1) as int) + 0) * l) by (nonlinear_arith)
                requires
                    g.ny >= 2,
            ;
        }
    } else {
        lemma_const_layers_col_sum(g, zsd, l, i, j - 1);
        assert((i * ((g.ny - 1) as int) + (j - 1)) * l + l == (i * ((g.ny - 1) as int) + j) * l)
            by (nonlinear_arith);
    }
}

/// Flat-terrain law, over the whole mesh: with a constant elevation at
/// or below the second level from the bottom, the mesh holds one cell
/// per horizontal cell and level interval.
pub proof fn lemma_flat_terrain_total(g: Grid, zsd: Seq<i64>, e: i64)
    requires
        g.wf(),
        g.nx >= 2,
        g.ny >= 2,
        zsd.len() >= 2,
        desc_sorted(zsd),
        e <= zsd[zsd.len() - 2],
        forall|t: int| 0 <= t < g.elevations@.len() ==> #[trigger] g.elevations@[t] == e,
    ensures
        total_cells(g, zsd) == (((g.nx - 1) as int) * ((g.ny - 1) as int)) * (zsd.len() - 1),
{
    let l = zsd.len() - 1;
    assert forall|a: int, b: int|
        0 <= a < g.nx - 1 && 0 <= b < g.ny - 1 implies #[trigger] layers(g, zsd, a, b) == l by {
        lemma_flat_terrain_layers(g, zsd, e, a, b);
    }
    lemma_const_layers_col_sum(g, zsd, l, (g.nx - 1) as int, 0);
    assert((((g.nx - 1) as int) * ((g.ny - 1) as int) + 0) * l == (((g.nx - 1) as int) * ((g.ny
        - 1) as int)) * l) by (nonlinear_arith);
}

/// Boundary-classification law. Always: the topmost layer's cell has its
/// Sky wall on top and no other Sky wall appears anywhere; the
/// bottommost layer's cell has a Terrain wall under it; the columns on
/// each horizontal domain edge carry an Inlet wall on that side. Where
/// no adjacent column is shallower, the bottom wall is the only Terrain
/// wall, so the bottommost cell has exactly one. (Next to a shallower
/// column — steeper terrain — the lateral face against the ground is
/// classified Terrain too, so that cell has more than one.)
pub proof fn lemma_boundary_classification(g: Grid, zsd: Seq<i64>, i: int, j: int, k: int)
    requires
        zsd.len() >= 1,
        valid_cell(g, zsd, i, j, k),
    ensures
        forall|w: int|
            0 <= w < 6 ==> ((#[trigger] wall_kind_at(g, zsd, i, j, k, w) == WallKind::Sky) <==> (w
                == 0 && k == 0)),
        k == layers(g, zsd, i, j) - 1 ==> wall_kind_at(g, zsd, i, j, k, 3) == WallKind::Terrain,
        k < layers(g, zsd, i, j) - 1 ==> wall_kind_at(g, zsd, i, j, k, 3) == WallKind::Interior,
        j == 0 ==> wall_kind_at(g, zsd, i, j, k, 1) == WallKind::Inlet,
        i == 0 ==> wall_kind_at(g, zsd, i, j, k, 2) == WallKind::Inlet,
        j == g.ny - 2 ==> wall_kind_at(g, zsd, i, j, k, 4) == WallKind::Inlet,
        i == g.nx - 2 ==> wall_kind_at(g, zsd, i, j, k, 5) == WallKind::Inlet,
        ((j > 0 ==> layers(g, zsd, i, j - 1) >= layers(g, zsd, i, j)) && (i > 0 ==> layers(
            g,
            zsd,
            i - 1,
            j,
        ) >= layers(g, zsd, i, j)) && (j < g.ny - 2 ==> layers(g, zsd, i, j + 1) >= layers(
            g,
            zsd,
            i,
            j,
        )) && (i < g.nx - 2 ==> layers(g, zsd, i + 1, j) >= layers(g, zsd, i, j))) ==> forall|
            w: int,
        |
            0 <= w < 6 ==> ((#[trigger] wall_kind_at(g, zsd, i, j, k, w) == WallKind::Terrain)
                <==> (w == 3 && k == layers(g, zsd, i, j) - 1)),
{
    lemma_layers_bounds(g, zsd, i, j);
    assert forall|w: int|
        0 <= w < 6 implies ((#[trigger] wall_kind_at(g, zsd, i, j, k, w) == WallKind::Sky) <==> (w
        == 0 && k == 0)) by {
        if w != 0 {
            assert(wall_kind_at(g, zsd, i, j, k, w) != WallKind::Sky);
        }
    }
    if (j > 0 ==> layers(g, zsd, i, j - 1) >= layers(g, zsd, i, j)) && (i > 0 ==> layers(
        g,
        zsd,
        i - 1,
        j,
    ) >= layers(g, zsd, i, j)) && (j < g.ny - 2 ==> layers(g, zsd, i, j + 1) >= layers(
        g,
        zsd,
        i,
        j,
    )) && (i < g.nx - 2 ==> layers(g, zsd, i + 1, j) >= layers(g, zsd, i, j)) {
        assert forall|w: int|
            0 <= w < 6 implies ((#[trigger] wall_kind_at(g, zsd, i, j, k, w)
            == WallKind::Terrain) <==> (w == 3 && k == layers(g, zsd, i, j) - 1)) by {
            if w == 1 && j > 0 {
                assert(k < layers(g, zsd, i, j - 1));
            }
            if w == 2 && i > 0 {
                assert(k < layers(g, zsd, i - 1, j));
            }
            if w == 4 && j < g.ny - 2 {
                assert(k < layers(g, zsd, i, j + 1));
            }
            if w == 5 && i < g.nx - 2 {
                assert(k < layers(g, zsd, i + 1, j));
            }
        }
    }
}

} // verus!
