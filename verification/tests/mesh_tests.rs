use terraflow::geometry::Vector;
use terraflow::geometry::average_points;
use terraflow::mesher::Mesh;
use terraflow::mesher::WallKind;
use terraflow::terrain::Grid;

fn flat_grid(nx: usize, ny: usize, elevation: i64) -> Grid {
    Grid {
        elevations: vec![elevation; nx * ny],
        x_min: 0,
        y_min: 0,
        x_max: 10 * (nx as i64 - 1),
        y_max: 10 * (ny as i64 - 1),
        x_res: 10,
        y_res: 10,
        z_min: elevation,
        z_max: elevation,
        nx,
        ny,
    }
}

#[test]
fn flat_terrain_yields_full_columns() {
    // 3x3 samples -> 2x2 horizontal cells; 3 levels -> 2 intervals each.
    let g = flat_grid(3, 3, 0);
    let mesh = Mesh::naive_mesh(&g, vec![1, 5, 9]);
    assert_eq!(mesh.cells.len(), 2 * 2 * 2);
}

#[test]
fn cell_ids_are_compact_and_interior_walls_in_range() {
    let g = flat_grid(4, 3, 0);
    let mesh = Mesh::naive_mesh(&g, vec![1, 5, 9, 13]);
    let n = mesh.cells.len();
    assert_eq!(n, 3 * 2 * 3);
    for (idx, cell) in mesh.cells.iter().enumerate() {
        assert_eq!(cell.id, idx);
        assert_eq!(cell.walls.len(), 6);
        assert_eq!(cell.vertices.len(), 8);
        for wall in cell.walls.iter() {
            assert_eq!(wall.cells_id[0], Some(cell.id));
            match wall.kind {
                WallKind::Interior => {
                    let other = wall.cells_id[1].expect("interior wall needs a second cell");
                    assert!(other < n);
                    assert_ne!(other, cell.id);
                }
                _ => assert_eq!(wall.cells_id[1], None),
            }
        }
        for n_id in cell.neighbours.iter() {
            assert!(*n_id < n);
        }
    }
}

#[test]
fn boundary_walls_are_classified() {
    let g = flat_grid(3, 3, 0);
    let mesh = Mesh::naive_mesh(&g, vec![1, 5, 9]);
    // Each column has 2 cells: topmost at k = 0, bottommost at k = 1.
    for cell in mesh.cells.iter() {
        let sky = cell.walls.iter().filter(|w| matches!(w.kind, WallKind::Sky)).count();
        let terrain = cell.walls.iter().filter(|w| matches!(w.kind, WallKind::Terrain)).count();
        let inlet = cell.walls.iter().filter(|w| matches!(w.kind, WallKind::Inlet)).count();
        // Every 2x2-corner column touches two lateral domain edges.
        assert_eq!(inlet, 2);
        // Exactly one of top/bottom cell per column.
        assert!((sky == 1 && terrain == 0) || (sky == 0 && terrain == 1));
    }
    let total_sky: usize = mesh
        .cells
        .iter()
        .map(|c| c.walls.iter().filter(|w| matches!(w.kind, WallKind::Sky)).count())
        .sum();
    let total_terrain: usize = mesh
        .cells
        .iter()
        .map(|c| c.walls.iter().filter(|w| matches!(w.kind, WallKind::Terrain)).count())
        .sum();
    assert_eq!(total_sky, 4);
    assert_eq!(total_terrain, 4);
}

#[test]
fn cell_geometry_is_exact() {
    let g = flat_grid(3, 3, 0);
    let mesh = Mesh::naive_mesh(&g, vec![1, 5, 9]);
    let top = &mesh.cells[0];
    // Topmost cell of column (0, 0): between levels 9 (upper) and 5 (lower).
    assert_eq!(top.volume, 10 * 10 * 4);
    assert_eq!(top.ground_height, 0);
    assert_eq!(top.center, Vector { x: 5, y: 5, z: 7 });
    assert_eq!(top.vertices[0], Vector { x: 0, y: 0, z: 5 });
    assert_eq!(top.vertices[2], Vector { x: 10, y: 0, z: 9 });
    let bottom = &mesh.cells[1];
    assert_eq!(bottom.id, 1);
    assert_eq!(bottom.volume, 10 * 10 * 4);
    // Vertical neighbours are adjacent ids in the same column.
    assert!(top.neighbours.contains(&1));
    assert!(bottom.neighbours.contains(&0));
}

#[test]
fn column_below_all_levels_yields_no_cells() {
    // Terrain above every level: no usable layer anywhere.
    let g = flat_grid(3, 3, 100);
    let mesh = Mesh::naive_mesh(&g, vec![1, 5, 9]);
    assert_eq!(mesh.cells.len(), 0);
}

#[test]
fn shallow_neighbour_column_gets_lateral_terrain_wall() {
    // A 3x2 grid has two horizontal cells side by side. Raising the
    // samples of the two right columns to 6 leaves the right cell with
    // min corner 6 (only the topmost interval 5..9 active, 1 layer)
    // while the left cell keeps min corner 0 (2 layers).
    let mut g = flat_grid(3, 2, 0);
    g.elevations[1 * 2] = 6;
    g.elevations[1 * 2 + 1] = 6;
    g.elevations[2 * 2] = 6;
    g.elevations[2 * 2 + 1] = 6;
    g.z_max = 6;
    let mesh = Mesh::naive_mesh(&g, vec![1, 5, 9]);
    assert_eq!(mesh.cells.len(), 3);
    // The deep cell of the left column (id 1) has no neighbour behind
    // its east wall: that ground-abutting face is classified Terrain,
    // beside the regular Terrain wall under it.
    let deep = &mesh.cells[1];
    assert!(matches!(deep.walls[5].kind, WallKind::Terrain));
    let terrain_walls = deep.walls.iter().filter(|w| matches!(w.kind, WallKind::Terrain)).count();
    assert_eq!(terrain_walls, 2);
}

#[test]
fn level_order_does_not_matter() {
    let g = flat_grid(3, 3, 0);
    let ascending = Mesh::naive_mesh(&g, vec![1, 5, 9]);
    let shuffled = Mesh::naive_mesh(&g, vec![9, 1, 5]);
    assert_eq!(ascending.cells.len(), shuffled.cells.len());
    for (a, b) in ascending.cells.iter().zip(shuffled.cells.iter()) {
        assert_eq!(a.id, b.id);
        assert_eq!(a.vertices, b.vertices);
        assert_eq!(a.volume, b.volume);
        assert_eq!(a.neighbours, b.neighbours);
    }
}

#[test]
fn degenerate_level_sets_give_empty_mesh() {
    let g = flat_grid(3, 3, 0);
    assert_eq!(Mesh::naive_mesh(&g, vec![5]).cells.len(), 0);
    assert_eq!(Mesh::naive_mesh(&g, vec![]).cells.len(), 0);
}

#[test]
fn grid_lookups_are_exact() {
    let g = flat_grid(3, 2, 7);
    assert_eq!(g.x(2), 20);
    assert_eq!(g.y(1), 10);
    assert_eq!(g.z(1, 1), 7);
    assert_eq!(g.xyz(2, 1), Vector { x: 20, y: 10, z: 7 });
    assert_eq!(g.max_elevation(), 7);
}

#[test]
fn triangulate_covers_every_cell_with_two_triangles() {
    let g = flat_grid(3, 3, 2);
    let tris = g.triangulate();
    assert_eq!(tris.len(), 2 * 2 * 2);
    assert_eq!(tris[0].vertices[0], Vector { x: 0, y: 0, z: 2 });
    assert_eq!(tris[0].vertices[1], Vector { x: 10, y: 0, z: 2 });
    assert_eq!(tris[0].vertices[2], Vector { x: 0, y: 10, z: 2 });
}

#[test]
fn make_walls_produces_four_sides_and_sky() {
    let g = flat_grid(3, 3, 2);
    let walls = g.make_walls(100);
    assert_eq!(walls[0].len(), 4);
    assert_eq!(walls[1].len(), 4);
    assert_eq!(walls[2].len(), 4);
    assert_eq!(walls[3].len(), 4);
    assert_eq!(walls[4].len(), 2);
    // Sky corner at the raised height above the highest elevation.
    assert_eq!(walls[4][0].vertices[0], Vector { x: 0, y: 20, z: 102 });
}

#[test]
fn vector_operations_are_exact() {
    let a = Vector { x: 1, y: 0, z: 0 };
    let b = Vector { x: 0, y: 1, z: 0 };
    assert_eq!(a.cross(&b), Vector { x: 0, y: 0, z: 1 });
    assert_eq!(a.dot(&b), 0);
    assert_eq!(a.add(&b), Vector { x: 1, y: 1, z: 0 });
    assert_eq!(a.sub(&b), Vector { x: 1, y: -1, z: 0 });
    let pts = vec![
        Vector { x: 0, y: 0, z: 0 },
        Vector { x: 4, y: 8, z: -4 },
    ];
    assert_eq!(average_points(&pts), Vector { x: 2, y: 4, z: -2 });
}
