use grid_geometry::{build_edges, partition, Grid, Rect};
use std::collections::{HashMap, HashSet};

/// A small deterministic generator of pseudo-random numbers.
struct Lcg(u64);

impl Lcg {
    fn next(&mut self) -> u32 {
        self.0 = self.0.wrapping_mul(6364136223846793005).wrapping_add(1442695040888963407);
        (self.0 >> 33) as u32
    }
}

fn random_walls(rng: &mut Lcg, width: i32, height: i32, percent: u32) -> Vec<(i32, i32)> {
    let mut walls = Vec::new();
    for y in 0..height {
        for x in 0..width {
            if rng.next() % 100 < percent {
                walls.push((x, y));
            }
        }
    }
    walls
}

/// Greedy meshing with a hash map from spans to the rectangles in progress.
fn rects_by_hash_map(width: i32, height: i32, walls: &HashSet<(i32, i32)>) -> Vec<Rect> {
    let mut plate_stack: Vec<Vec<(i32, i32)>> = Vec::new();
    for y in 0..height {
        let mut row = Vec::new();
        let mut start = None;
        for x in 0..width + 1 {
            match (start, walls.contains(&(x, y))) {
                (Some(s), false) => {
                    row.push((s, x - 1));
                    start = None;
                }
                (None, true) => start = Some(x),
                _ => (),
            }
        }
        plate_stack.push(row);
    }
    plate_stack.push(Vec::new());

    let mut building: HashMap<(i32, i32), Rect> = HashMap::new();
    let mut previous: Vec<(i32, i32)> = Vec::new();
    let mut rects = Vec::new();
    for (y, row) in plate_stack.into_iter().enumerate() {
        for span in &previous {
            if !row.contains(span) {
                if let Some(rect) = building.remove(span) {
                    rects.push(rect);
                }
            }
        }
        for span in &row {
            building
                .entry(*span)
                .and_modify(|rect| rect.top += 1)
                .or_insert(Rect { left: span.0, right: span.1, bottom: y as i32, top: y as i32 });
        }
        previous = row;
    }
    rects
}

#[derive(Clone, Copy, Default)]
struct Marks {
    id: [usize; 4],
    set: [bool; 4],
}

/// Edge tracing with one record per cell in nested vectors and coordinates
/// in floating point. Slots: 0 west, 1 east, 2 south, 3 north.
fn edges_by_nested_records(
    width: i32,
    height: i32,
    walls: &HashSet<(i32, i32)>,
    tile: f32,
) -> Vec<[f32; 4]> {
    let mut edges: Vec<[f32; 4]> = Vec::new();
    let mut cells = vec![vec![Marks::default(); width as usize + 1]; height as usize + 1];
    for y in 0..height {
        for x in 0..width {
            if !walls.contains(&(x, y)) {
                continue;
            }
            let (xi, yi) = (x as usize, y as usize);
            let below = if y > 0 { Some((xi, yi - 1)) } else { None };
            let left = if x > 0 { Some((xi - 1, yi)) } else { None };
            let (fx, fy) = (x as f32, y as f32);
            let sides = [
                ((x - 1, y), below, [fx * tile, fy * tile, fx * tile, fy * tile + tile], 3),
                ((x + 1, y), below, [(fx + 1.0) * tile, fy * tile, (fx + 1.0) * tile, fy * tile + tile], 3),
                ((x, y - 1), left, [fx * tile, fy * tile, fx * tile + tile, fy * tile], 2),
                ((x, y + 1), left, [fx * tile, (fy + 1.0) * tile, fx * tile + tile, (fy + 1.0) * tile], 2),
            ];
            for (slot, (neighbor, before, unit, far)) in sides.into_iter().enumerate() {
                if walls.contains(&neighbor) {
                    continue;
                }
                let joined = before.filter(|&(bx, by)| cells[by][bx].set[slot]);
                let id = match joined {
                    Some((bx, by)) => {
                        let id = cells[by][bx].id[slot];
                        edges[id][far] += tile;
                        id
                    }
                    None => {
                        edges.push(unit);
                        edges.len() - 1
                    }
                };
                cells[yi][xi].id[slot] = id;
                cells[yi][xi].set[slot] = true;
            }
        }
    }
    edges
}

fn compare(width: i32, height: i32, walls: &[(i32, i32)]) {
    let set: HashSet<(i32, i32)> = walls.iter().copied().collect();
    let grid = Grid::from_cells(width, height, walls);
    assert_eq!(partition(&grid), rects_by_hash_map(width, height, &set));
    for tile in [1, 16] {
        let ours: Vec<[f32; 4]> = build_edges(&grid, tile)
            .edges
            .iter()
            .map(|e| [e.sx as f32, e.sy as f32, e.ex as f32, e.ey as f32])
            .collect();
        assert_eq!(ours, edges_by_nested_records(width, height, &set, tile as f32));
    }
}

#[test]
fn agrees_with_hash_map_meshing_on_random_grids() {
    let mut rng = Lcg(2023);
    for round in 0..400 {
        let width = 1 + (rng.next() % 12) as i32;
        let height = 1 + (rng.next() % 9) as i32;
        let percent = [10, 35, 50, 65, 90][round % 5];
        let walls = random_walls(&mut rng, width, height, percent);
        compare(width, height, &walls);
    }
}

#[test]
fn agrees_with_hash_map_meshing_on_full_and_striped_grids() {
    for width in 1..7 {
        for height in 1..7 {
            let full: Vec<(i32, i32)> =
                (0..height).flat_map(|y| (0..width).map(move |x| (x, y))).collect();
            compare(width, height, &full);
            let rows: Vec<(i32, i32)> = full.iter().copied().filter(|c| c.1 % 2 == 0).collect();
            compare(width, height, &rows);
            let columns: Vec<(i32, i32)> = full.iter().copied().filter(|c| c.0 % 2 == 1).collect();
            compare(width, height, &columns);
            let checkers: Vec<(i32, i32)> =
                full.iter().copied().filter(|c| (c.0 + c.1) % 2 == 0).collect();
            compare(width, height, &checkers);
        }
    }
}

#[test]
fn large_level_is_meshed() {
    let mut rng = Lcg(7);
    let walls = random_walls(&mut rng, 120, 80, 55);
    compare(120, 80, &walls);
    let grid = Grid::from_cells(120, 80, &walls);
    assert_eq!(grid.area(), 9600);
}
