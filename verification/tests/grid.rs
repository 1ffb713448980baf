use raymond::acc_grid::{AccGrid, Cell, CellCoord, CellSpan, GridMesh, Resolution};
use raymond::traverse::{next_axis, Axis, Heading, SignedCell, Start, Step};
use raymond::error::RenderError;
use raymond::select::Hit;

fn coord(x: usize, y: usize, z: usize) -> CellCoord {
    CellCoord { x, y, z }
}

fn span(min: (usize, usize, usize), max: (usize, usize, usize)) -> CellSpan {
    CellSpan { min: coord(min.0, min.1, min.2), max: coord(max.0, max.1, max.2) }
}

fn mesh(res: (usize, usize, usize), spans: Vec<CellSpan>) -> GridMesh {
    GridMesh { resolution: Resolution { x: res.0, y: res.1, z: res.2 }, spans }
}

fn starts(grid: &AccGrid) -> Vec<usize> {
    grid.cells.iter().map(|c| c.0).collect()
}

#[test]
fn build_lays_runs_end_to_end() {
    let m = mesh(
        (2, 2, 2),
        vec![span((0, 0, 0), (0, 0, 0)), span((0, 0, 0), (1, 1, 1)), span((5, 5, 5), (9, 9, 9))],
    );
    let grid = AccGrid::build_from_mesh(&m).expect("mesh can be indexed");
    assert_eq!(grid.resolution, Resolution { x: 2, y: 2, z: 2 });
    assert_eq!(grid.triangle_count, 3);
    assert_eq!(starts(&grid), vec![0, 3, 5, 7, 9, 11, 13, 15]);
    assert_eq!(
        grid.mapping_table,
        vec![2, 0, 1, 1, 1, 1, 1, 1, 1, 1, 1, 1, 1, 1, 1, 2, 1, 2]
    );
    assert_eq!(grid.cells[0], Cell(0));
    assert_eq!(grid.triangles(0).to_vec(), vec![0, 1]);
    assert_eq!(grid.triangles(3).to_vec(), vec![1]);
    assert_eq!(grid.triangles(7).to_vec(), vec![1, 2]);
}

#[test]
fn build_of_mesh_without_triangles() {
    let grid = AccGrid::build_from_mesh(&mesh((2, 1, 1), Vec::new())).expect("empty mesh");
    assert_eq!(starts(&grid), vec![0, 1]);
    assert_eq!(grid.mapping_table, vec![0, 0]);
    assert_eq!(grid.triangles(1).to_vec(), Vec::<usize>::new());
}

#[test]
fn build_skips_spans_turned_inside_out() {
    let m = mesh((2, 2, 2), vec![span((1, 0, 0), (0, 1, 1)), span((1, 1, 1), (1, 1, 1))]);
    let grid = AccGrid::build_from_mesh(&m).expect("mesh can be indexed");
    assert_eq!(grid.mapping_table, vec![0, 0, 0, 0, 0, 0, 0, 1, 1]);
}

// With more cells along y than along z two cells share an array position,
// and a triangle that reaches both is listed there twice.
#[test]
fn build_lists_a_triangle_once_per_cell_at_a_position() {
    let m = mesh((1, 3, 2), vec![span((0, 0, 0), (0, 2, 1))]);
    let grid = AccGrid::build_from_mesh(&m).expect("mesh can be indexed");
    assert_eq!(grid.cells.len(), 6);
    assert_eq!(grid.triangles(0).to_vec(), vec![0]);
    assert_eq!(grid.triangles(1).to_vec(), vec![0]);
    assert_eq!(grid.triangles(2).to_vec(), vec![0, 0]);
    assert_eq!(grid.triangles(3).to_vec(), vec![0]);
    assert_eq!(grid.triangles(4).to_vec(), vec![0]);
    assert_eq!(grid.triangles(5).to_vec(), Vec::<usize>::new());
}

#[test]
fn build_rejects_empty_axis() {
    for res in [(0, 2, 2), (2, 0, 2), (2, 2, 0)] {
        let m = mesh(res, vec![span((0, 0, 0), (0, 0, 0))]);
        assert_eq!(AccGrid::build_from_mesh(&m).err(), Some(RenderError::InvalidScene));
    }
}

#[test]
fn build_rejects_uncountable_cells() {
    let m = mesh((usize::MAX, 2, 1), Vec::new());
    assert_eq!(AccGrid::build_from_mesh(&m).err(), Some(RenderError::InvalidScene));
    let m = mesh((usize::MAX / 2, 1, 3), Vec::new());
    assert_eq!(AccGrid::build_from_mesh(&m).err(), Some(RenderError::InvalidScene));
}

// With more cells along z than along y the cells at the far end have no
// array position.
#[test]
fn build_rejects_triangle_outside_the_cell_array() {
    let inside = mesh((1, 1, 3), vec![span((0, 0, 0), (0, 0, 0))]);
    assert!(AccGrid::build_from_mesh(&inside).is_ok());
    let outside = mesh((1, 1, 3), vec![span((0, 0, 0), (0, 0, 0)), span((0, 0, 0), (0, 0, 1))]);
    assert_eq!(AccGrid::build_from_mesh(&outside).err(), Some(RenderError::InvalidScene));
}

#[test]
fn slot_follows_the_formula() {
    let grid = AccGrid::build_from_mesh(&mesh((4, 3, 3), Vec::new())).expect("grid");
    assert_eq!(grid.slot(coord(0, 0, 0)), Some(0));
    assert_eq!(grid.slot(coord(3, 0, 0)), Some(3));
    assert_eq!(grid.slot(coord(1, 2, 0)), Some(9));
    assert_eq!(grid.slot(coord(1, 2, 2)), Some(1 + 4 * (2 + 2 * 3)));
    assert_eq!(grid.slot(coord(0, 0, 3)), None);
    assert_eq!(grid.slot(coord(usize::MAX, usize::MAX, usize::MAX)), None);
    // a coordinate beyond its axis still has a position while the array lasts
    assert_eq!(grid.slot(coord(4, 0, 0)), Some(4));
}

#[test]
fn advance_steps_along_one_axis() {
    let grid = AccGrid::build_from_mesh(&mesh((4, 3, 3), Vec::new())).expect("grid");
    let fwd = Step { x: Heading::Forward, y: Heading::Forward, z: Heading::Forward };
    let back = Step { x: Heading::Backward, y: Heading::Backward, z: Heading::Backward };
    assert_eq!(grid.advance(coord(1, 1, 1), Axis::X, fwd), Some(coord(2, 1, 1)));
    assert_eq!(grid.advance(coord(1, 1, 1), Axis::Y, fwd), Some(coord(1, 2, 1)));
    assert_eq!(grid.advance(coord(1, 1, 1), Axis::Z, back), Some(coord(1, 1, 0)));
    assert_eq!(grid.advance(coord(3, 1, 1), Axis::X, fwd), None);
    assert_eq!(grid.advance(coord(1, 2, 1), Axis::Y, fwd), None);
    assert_eq!(grid.advance(coord(1, 1, 0), Axis::Z, back), None);
    assert_eq!(grid.advance(coord(0, 1, 1), Axis::X, back), None);
    assert_eq!(grid.advance(coord(4, 1, 1), Axis::X, back), Some(coord(3, 1, 1)));
    assert_eq!(grid.advance(coord(usize::MAX, 1, 1), Axis::X, fwd), None);
    let mixed = Step { x: Heading::Backward, y: Heading::Forward, z: Heading::Forward };
    assert_eq!(grid.advance(coord(1, 1, 1), Axis::X, mixed), Some(coord(0, 1, 1)));
}

#[test]
fn traversal_starts_in_the_cell_of_an_inner_origin() {
    let grid = AccGrid::build_from_mesh(&mesh((2, 2, 3), Vec::new())).expect("grid");
    let inner = SignedCell { x: 1, y: 0, z: 2 };
    let entry = SignedCell { x: 0, y: 0, z: 0 };
    assert_eq!(grid.start(inner, entry), Start { cell: coord(1, 0, 2), inside: true });
}

#[test]
fn traversal_of_an_outer_origin_starts_where_the_ray_enters() {
    let grid = AccGrid::build_from_mesh(&mesh((2, 2, 2), Vec::new())).expect("grid");
    // in front of the grid
    let before = SignedCell { x: 1, y: 1, z: -5 };
    let entry = SignedCell { x: 1, y: 1, z: 0 };
    assert_eq!(grid.start(before, entry), Start { cell: coord(1, 1, 0), inside: false });
    // behind the grid: the origin's cell is no cell of the grid
    let behind = SignedCell { x: 5, y: 0, z: 0 };
    let entry = SignedCell { x: 1, y: 0, z: 0 };
    assert_eq!(grid.start(behind, entry), Start { cell: coord(1, 0, 0), inside: false });
    // an origin on a far face is outside as well
    let on_face = SignedCell { x: 2, y: 0, z: 0 };
    assert_eq!(grid.start(on_face, entry), Start { cell: coord(1, 0, 0), inside: false });
}

#[test]
fn entry_cell_is_brought_into_the_grid() {
    let grid = AccGrid::build_from_mesh(&mesh((2, 3, 4), Vec::new())).expect("grid");
    let outside = SignedCell { x: -1, y: -1, z: -1 };
    // a ray that enters through the far faces
    let far = SignedCell { x: 2, y: 3, z: 4 };
    assert_eq!(grid.start(outside, far), Start { cell: coord(1, 2, 3), inside: false });
    // rounding may put the entry just in front of the grid
    let near = SignedCell { x: -1, y: 0, z: 1 };
    assert_eq!(grid.start(outside, near), Start { cell: coord(0, 0, 1), inside: false });
    let wild = SignedCell { x: i32::MAX, y: i32::MIN, z: 2 };
    assert_eq!(grid.start(outside, wild), Start { cell: coord(1, 0, 2), inside: false });
}

#[test]
fn nearest_face_decides_the_axis() {
    // x < y, x < z
    assert_eq!(next_axis(true, true, false), Axis::X);
    assert_eq!(next_axis(true, true, true), Axis::X);
    // x < y, z <= x
    assert_eq!(next_axis(true, false, false), Axis::Z);
    // y <= x, y < z
    assert_eq!(next_axis(false, false, true), Axis::Y);
    assert_eq!(next_axis(false, true, true), Axis::Y);
    // all equal, or nothing comparable
    assert_eq!(next_axis(false, false, false), Axis::Z);
}

type V3 = [f32; 3];

fn sub(a: V3, b: V3) -> V3 {
    [a[0] - b[0], a[1] - b[1], a[2] - b[2]]
}

fn cross(a: V3, b: V3) -> V3 {
    [a[1] * b[2] - a[2] * b[1], a[2] * b[0] - a[0] * b[2], a[0] * b[1] - a[1] * b[0]]
}

fn dot(a: V3, b: V3) -> f32 {
    a[0] * b[0] + a[1] * b[1] + a[2] * b[2]
}

fn hit_triangle(tri: &[V3; 3], origin: V3, dir: V3) -> Option<f32> {
    let e1 = sub(tri[1], tri[0]);
    let e2 = sub(tri[2], tri[0]);
    let h = cross(dir, e2);
    let a = dot(e1, h);
    if a.abs() < 1e-8 {
        return None;
    }
    let f = 1.0 / a;
    let s = sub(origin, tri[0]);
    let u = f * dot(s, h);
    if u < 0.0 || u > 1.0 {
        return None;
    }
    let q = cross(s, e1);
    let v = f * dot(dir, q);
    if v < 0.0 || u + v > 1.0 {
        return None;
    }
    let t = f * dot(e2, q);
    if t > 1e-8 {
        Some(t)
    } else {
        None
    }
}

fn hit_box(min: V3, max: V3, origin: V3, dir: V3) -> Option<f32> {
    let mut tmin = f32::NEG_INFINITY;
    let mut tmax = f32::INFINITY;
    for i in 0..3 {
        let inv = 1.0 / dir[i];
        let t1 = (min[i] - origin[i]) * inv;
        let t2 = (max[i] - origin[i]) * inv;
        tmin = tmin.max(t1.min(t2));
        tmax = tmax.min(t1.max(t2));
    }
    if tmax > tmin.max(0.0) {
        Some(tmin)
    } else {
        None
    }
}

fn bounds(tris: &[[V3; 3]]) -> (V3, V3) {
    let mut min = [f32::INFINITY; 3];
    let mut max = [f32::NEG_INFINITY; 3];
    for t in tris {
        for v in t {
            for i in 0..3 {
                min[i] = min[i].min(v[i]);
                max[i] = max[i].max(v[i]);
            }
        }
    }
    (min, max)
}

fn discretise(tris: &[[V3; 3]]) -> (GridMesh, V3) {
    let (min, max) = bounds(tris);
    let size = sub(max, min);
    let volume = (size[0] * size[1] * size[2]).abs();
    let density = (3.0 * tris.len() as f32 / volume).powf(1.0 / 3.0);
    let res = [
        (size[0] * density).ceil() as usize,
        (size[1] * density).ceil() as usize,
        (size[2] * density).ceil() as usize,
    ];
    let cell = [size[0] / res[0] as f32, size[1] / res[1] as f32, size[2] / res[2] as f32];
    let mut spans = Vec::new();
    for t in tris {
        let (lo, hi) = bounds(std::slice::from_ref(t));
        let at = |p: V3, i: usize| ((p[i] - min[i]) / cell[i]) as usize;
        spans.push(span((at(lo, 0), at(lo, 1), at(lo, 2)), (at(hi, 0), at(hi, 1), at(hi, 2))));
    }
    (mesh((res[0], res[1], res[2]), spans), cell)
}

fn rank(t: f32) -> u32 {
    assert!(t >= 0.0);
    t.to_bits()
}

fn brute_force(tris: &[[V3; 3]], origin: V3, dir: V3) -> Option<(f32, usize)> {
    let place = |v: f32| if v < 0.0 { !v.to_bits() } else { v.to_bits() | 0x8000_0000 };
    let corner = |p: V3| raymond::mesh::Point { x: place(p[0]), y: place(p[1]), z: place(p[2]) };
    let locate = |t: &[V3; 3]| raymond::mesh::Triangle(corner(t[0]), corner(t[1]), corner(t[2]));
    let mesh = raymond::mesh::Mesh::new(tris.to_vec(), &locate);
    let probe = |t: &[V3; 3]| hit_triangle(t, origin, dir).map(|d| Hit::new(rank(d)));
    mesh.intersects(rank(f32::MAX), &probe).map(|h| (f32::from_bits(h.distance), h.subobject_index))
}

fn through_grid(
    grid: &AccGrid,
    cell: V3,
    tris: &[[V3; 3]],
    origin: V3,
    dir: V3,
) -> Option<(f32, usize)> {
    let (min, max) = bounds(tris);
    let entry_distance = hit_box(min, max, origin, dir)?;
    let signed = |p: V3| SignedCell {
        x: ((p[0] - min[0]) / cell[0]) as i32,
        y: ((p[1] - min[1]) / cell[1]) as i32,
        z: ((p[2] - min[2]) / cell[2]) as i32,
    };
    let entry = [
        origin[0] + dir[0] * entry_distance,
        origin[1] + dir[1] * entry_distance,
        origin[2] + dir[2] * entry_distance,
    ];
    let chosen = grid.start(signed(origin), signed(entry));
    let at = chosen.cell;
    let start = if chosen.inside { sub(origin, min) } else { sub(entry, min) };
    let heading = |d: f32| if d < 0.0 { Heading::Backward } else { Heading::Forward };
    let step = Step { x: heading(dir[0]), y: heading(dir[1]), z: heading(dir[2]) };
    let coords = [at.x, at.y, at.z];
    let mut t_first = [0.0f32; 3];
    let mut t_delta = [0.0f32; 3];
    for i in 0..3 {
        let ahead = if dir[i] < 0.0 { 0.0 } else { 1.0 };
        t_first[i] = ((coords[i] as f32 + ahead) * cell[i] - start[i]) / dir[i];
        t_delta[i] = (if dir[i] < 0.0 { -cell[i] } else { cell[i] }) / dir[i];
    }
    let probe = |t: usize| hit_triangle(&tris[t], origin, dir).map(|d| Hit::new(rank(d)));
    let order = |x: usize, y: usize, z: usize| {
        let t = [
            t_first[0] + x as f32 * t_delta[0],
            t_first[1] + y as f32 * t_delta[1],
            t_first[2] + z as f32 * t_delta[2],
        ];
        (t[0] < t[1], t[0] < t[2], t[1] < t[2])
    };
    grid.intersects(at, step, rank(5712515.0), &probe, &order)
        .map(|h| (f32::from_bits(h.distance), h.subobject_index))
}

// A walk through a grid of 3 by 2 by 2 cells in which only the last cell of
// the bottom row lists a triangle that the ray hits.
#[test]
fn walk_visits_cells_until_a_hit() {
    let m = mesh(
        (3, 2, 2),
        vec![span((0, 0, 0), (0, 0, 0)), span((2, 0, 0), (2, 0, 0)), span((1, 1, 0), (1, 1, 0))],
    );
    let grid = AccGrid::build_from_mesh(&m).expect("grid");
    let fwd = Step { x: Heading::Forward, y: Heading::Forward, z: Heading::Forward };
    let asked = std::cell::RefCell::new(Vec::new());
    let probe = |t: usize| {
        asked.borrow_mut().push(t);
        if t == 1 {
            Some(Hit::new(77))
        } else {
            None
        }
    };
    let along_x = |_: usize, _: usize, _: usize| (true, true, false);
    let hit = grid.intersects(coord(0, 0, 0), fwd, 1000, &probe, &along_x);
    assert_eq!(hit, Some(Hit::with_child(77, 1)));
    assert_eq!(*asked.borrow(), vec![0, 1]);
    // the same walk along y leaves the grid after the second row
    asked.borrow_mut().clear();
    let along_y = |_: usize, _: usize, _: usize| (false, false, true);
    assert_eq!(grid.intersects(coord(0, 0, 0), fwd, 1000, &probe, &along_y), None);
    assert_eq!(*asked.borrow(), vec![0]);
    // a hit at or beyond the limit is none
    assert_eq!(grid.intersects(coord(0, 0, 0), fwd, 77, &probe, &along_x), None);
    // a cell without a place in the cell array ends the walk at once
    asked.borrow_mut().clear();
    assert_eq!(grid.intersects(coord(0, 0, 9), fwd, 1000, &probe, &along_x), None);
    assert!(asked.borrow().is_empty());
}

#[test]
fn walk_is_told_how_far_it_has_come() {
    let grid = AccGrid::build_from_mesh(&mesh((3, 2, 2), Vec::new())).expect("grid");
    let step = Step { x: Heading::Backward, y: Heading::Forward, z: Heading::Forward };
    let seen = std::cell::RefCell::new(Vec::new());
    let probe = |_: usize| None;
    // x first, then y, then x again, which leaves the grid
    let order = |x: usize, y: usize, z: usize| {
        seen.borrow_mut().push((x, y, z));
        if y == 0 && x == 1 {
            (false, false, true)
        } else {
            (true, true, false)
        }
    };
    assert_eq!(grid.intersects(coord(1, 0, 0), step, 1000, &probe, &order), None);
    assert_eq!(*seen.borrow(), vec![(0, 0, 0), (1, 0, 0), (1, 1, 0)]);
}

#[test]
fn probe_cell_asks_in_list_order() {
    let m = mesh(
        (2, 1, 1),
        vec![span((0, 0, 0), (0, 0, 0)), span((1, 0, 0), (1, 0, 0)), span((0, 0, 0), (1, 0, 0))],
    );
    let grid = AccGrid::build_from_mesh(&m).expect("grid");
    let asked = std::cell::RefCell::new(Vec::new());
    let probe = |t: usize| {
        asked.borrow_mut().push(t);
        Some(Hit::new(40))
    };
    assert_eq!(grid.probe_cell(1, 1000, &probe), Some(Hit::with_child(40, 1)));
    assert_eq!(*asked.borrow(), vec![1, 2]);
    assert_eq!(grid.probe_cell(1, 40, &probe), None);
}

// The triangle (-1,-1,5), (1,-1,5), (0,1,5) seen from the origin along +z,
// with a second triangle behind it that gives the mesh a volume.
#[test]
fn grid_agrees_with_brute_force() {
    let tris = vec![
        [[-1.0, -1.0, 5.0], [1.0, -1.0, 5.0], [0.0, 1.0, 5.0]],
        [[-1.0, -1.0, 6.0], [1.0, -1.0, 6.0], [0.0, 1.0, 7.0]],
    ];
    let (m, cell) = discretise(&tris);
    assert_eq!(m.resolution, Resolution { x: 2, y: 2, z: 2 });
    let grid = AccGrid::build_from_mesh(&m).expect("mesh can be indexed");
    let origin = [0.0, 0.0, 0.0];
    let dir = [0.0, 0.0, 1.0];
    let direct = brute_force(&tris, origin, dir).expect("ray hits the mesh");
    assert!((direct.0 - 5.0).abs() < 1e-4);
    assert_eq!(direct.1, 0);
    let via_grid = through_grid(&grid, cell, &tris, origin, dir).expect("ray hits the grid");
    assert!((via_grid.0 - direct.0).abs() < 1e-4);
    assert_eq!(via_grid.1, 0);
    // a ray that passes beside both triangles
    let beside = [0.95, 0.9, 0.0];
    assert_eq!(brute_force(&tris, beside, dir), None);
    assert_eq!(through_grid(&grid, cell, &tris, beside, dir), None);
    // a ray from inside the bounds towards the far triangle
    let inside = [0.0, -0.5, 5.5];
    let direct = brute_force(&tris, inside, dir).expect("ray hits the far triangle");
    let via_grid = through_grid(&grid, cell, &tris, inside, dir).expect("grid finds it too");
    assert_eq!(direct.1, 1);
    assert_eq!(via_grid.1, 1);
    assert!((via_grid.0 - direct.0).abs() < 1e-4);
}

// A single flat triangle has bounds without volume: no grid is built for it.
#[test]
fn flat_mesh_is_an_invalid_scene() {
    let tris = vec![[[-1.0, -1.0, 5.0], [1.0, -1.0, 5.0], [0.0, 1.0, 5.0]]];
    let direct = brute_force(&tris, [0.0, 0.0, 0.0], [0.0, 0.0, 1.0]).expect("ray hits");
    assert!((direct.0 - 5.0).abs() < 1e-4);
    let (m, _) = discretise(&tris);
    assert_eq!(m.resolution.z, 0);
    assert_eq!(AccGrid::build_from_mesh(&m).err(), Some(RenderError::InvalidScene));
}

// A ray parallel to a triangle's plane does not hit it, and no selection is
// made from an empty set of hits.
#[test]
fn parallel_ray_leaves_nothing_to_select() {
    let tri = [[-1.0, -1.0, 5.0], [1.0, -1.0, 5.0], [0.0, 1.0, 5.0]];
    assert_eq!(hit_triangle(&tri, [0.0, 0.0, 0.0], [1.0, 0.0, 0.0]), None);
    assert_eq!(brute_force(&[tri], [0.0, 0.0, 0.0], [1.0, 0.0, 0.0]), None);
}
