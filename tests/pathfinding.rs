use std::collections::{HashSet, VecDeque};

use flowfield::cell::Cell;
use flowfield::chunks::GeneratedChunks;
use flowfield::field::{FieldEntry, WAYS_CAP};
use flowfield::detect::MapUpdate;
use flowfield::pathfind::Pathfinding;
use flowfield::tile_map::TileMap;

struct World {
    tiles: TileMap,
    goals: HashSet<u64>,
    blocking: HashSet<u64>,
    chunks: GeneratedChunks,
    engine: Pathfinding,
    next: u64,
}

impl World {
    fn new() -> World {
        let mut chunks = GeneratedChunks::new();
        chunks.generate(Cell::new(0, 0));
        World {
            tiles: TileMap::new(),
            goals: HashSet::new(),
            blocking: HashSet::new(),
            chunks,
            engine: Pathfinding::new(),
            next: 1,
        }
    }

    fn add(&mut self, x: i32, y: i32, goal: bool) -> u64 {
        let id = self.next;
        self.next += 1;
        let pos = Cell::new(x, y);
        self.tiles.place(id, pos, None);
        if goal {
            self.goals.insert(id);
        } else {
            self.blocking.insert(id);
        }
        self.engine.entity_changed(id, pos, None);
        id
    }

    fn move_to(&mut self, id: u64, x: i32, y: i32) {
        let pos = Cell::new(x, y);
        self.tiles.place(id, pos, None);
        self.engine.entity_changed(id, pos, None);
    }

    fn step(&mut self, budget: usize) {
        self.engine
            .pathfind_iteration(&self.tiles, &self.goals, &self.blocking, &self.chunks, budget);
    }

    fn converge(&mut self) {
        for _ in 0..100_000 {
            if self.engine.queue_is_empty() {
                return;
            }
            self.step(1000);
        }
        panic!("the field did not converge");
    }

    fn dist(&self, x: i32, y: i32) -> Option<u32> {
        self.engine.get(Cell::new(x, y)).map(|e| e.distance)
    }

    fn entry(&self, x: i32, y: i32) -> Option<FieldEntry> {
        self.engine.get(Cell::new(x, y))
    }
}

/// Five open cells along y = 0, walled in on every generated side.
fn corridor() -> World {
    let mut w = World::new();
    for x in 0..5 {
        w.add(x, 1, false);
    }
    w.add(5, 0, false);
    w
}

const SIDE: i32 = 64;

/// Breadth-first distances inside the generated chunk.
fn bfs(goals: &[(i32, i32)], walls: &HashSet<(i32, i32)>) -> Vec<Option<u32>> {
    let mut d: Vec<Option<u32>> = vec![None; (SIDE * SIDE) as usize];
    let mut q = VecDeque::new();
    for &(x, y) in goals {
        d[(y * SIDE + x) as usize] = Some(0);
        q.push_back((x, y));
    }
    while let Some((x, y)) = q.pop_front() {
        let here = d[(y * SIDE + x) as usize].unwrap();
        for (dx, dy) in [(1, 0), (0, 1), (-1, 0), (0, -1)] {
            let (nx, ny) = (x + dx, y + dy);
            if nx < 0 || ny < 0 || nx >= SIDE || ny >= SIDE || walls.contains(&(nx, ny)) {
                continue;
            }
            let i = (ny * SIDE + nx) as usize;
            if d[i].is_none() {
                d[i] = Some(here + 1);
                q.push_back((nx, ny));
            }
        }
    }
    d
}

/// A fixed scatter of walls and goals, from a small linear congruential sequence.
fn scatter(seed: u64) -> (Vec<(i32, i32)>, HashSet<(i32, i32)>) {
    let mut s = seed;
    let mut next = || {
        s = s.wrapping_mul(6364136223846793005).wrapping_add(1442695040888963407);
        (s >> 33) as i32
    };
    let mut walls = HashSet::new();
    for _ in 0..900 {
        let (x, y) = (next().rem_euclid(SIDE), next().rem_euclid(SIDE));
        walls.insert((x, y));
    }
    let mut goals = Vec::new();
    while goals.len() < 3 {
        let (x, y) = (next().rem_euclid(SIDE), next().rem_euclid(SIDE));
        if !walls.contains(&(x, y)) {
            goals.push((x, y));
        }
    }
    (goals, walls)
}

fn build(goals: &[(i32, i32)], walls: &HashSet<(i32, i32)>) -> World {
    let mut w = World::new();
    for &(x, y) in walls {
        w.add(x, y, false);
    }
    for &(x, y) in goals {
        w.add(x, y, true);
    }
    w.converge();
    w
}

#[test]
fn corridor_distances_count_up_from_the_goal() {
    let mut w = corridor();
    w.add(0, 0, true);
    w.converge();
    let got: Vec<Option<u32>> = (0..5).map(|x| w.dist(x, 0)).collect();
    assert_eq!(got, vec![Some(0), Some(1), Some(2), Some(3), Some(4)]);
}

#[test]
fn corridor_blocked_in_the_middle_cuts_off_the_far_end() {
    let mut w = corridor();
    w.add(0, 0, true);
    w.converge();
    w.add(2, 0, false);
    w.converge();
    assert_eq!(w.dist(0, 0), Some(0));
    assert_eq!(w.dist(1, 0), Some(1));
    assert_eq!(w.dist(2, 0), None);
    assert_eq!(w.dist(3, 0), None);
    assert_eq!(w.dist(4, 0), None);
}

#[test]
fn equal_routes_are_drawn_about_equally_often() {
    let mut w = World::new();
    w.add(12, 10, true);
    w.add(8, 10, true);
    w.add(10, 11, false);
    w.add(10, 9, false);
    w.converge();
    let from = Cell::new(10, 10);
    let mut right = 0;
    let mut left = 0;
    for _ in 0..1000 {
        let d = w.engine.pathfind(from).unwrap();
        assert_eq!(d.distance, 2);
        if d.dir == Cell::new(1, 0) {
            right += 1;
        } else if d.dir == Cell::new(-1, 0) {
            left += 1;
        } else {
            panic!("unexpected direction {:?}", d.dir);
        }
    }
    assert!((right as i32 - 500).abs() < 100, "right {}", right);
    assert!((left as i32 - 500).abs() < 100, "left {}", left);
}

#[test]
fn moving_a_goal_queues_both_cells_and_moves_the_field() {
    let mut w = World::new();
    let g = w.add(5, 5, true);
    w.converge();
    assert_eq!(w.dist(6, 5), Some(1));
    w.move_to(g, 20, 20);
    let dirty = w.engine.dirty().cells_at(0);
    assert!(dirty.contains(&Cell::new(5, 5)));
    assert!(dirty.contains(&Cell::new(20, 20)));
    assert_eq!(dirty.len(), 2);
    w.converge();
    assert_eq!(w.dist(20, 20), Some(0));
    assert_eq!(w.dist(21, 20), Some(1));
    assert_eq!(w.dist(5, 5), Some(30));
    assert_eq!(w.dist(6, 5), Some(29));
}

#[test]
fn converged_distances_match_breadth_first_search() {
    for seed in [1u64, 7, 42] {
        let (goals, walls) = scatter(seed);
        let w = build(&goals, &walls);
        let expected = bfs(&goals, &walls);
        for y in 0..SIDE {
            for x in 0..SIDE {
                let want = if walls.contains(&(x, y)) && !goals.contains(&(x, y)) {
                    None
                } else {
                    expected[(y * SIDE + x) as usize]
                };
                assert_eq!(w.dist(x, y), want, "cell ({}, {}), seed {}", x, y, seed);
            }
        }
    }
}

#[test]
fn blocked_cells_have_no_entry_after_convergence() {
    let (goals, walls) = scatter(3);
    let w = build(&goals, &walls);
    for &(x, y) in &walls {
        if !goals.contains(&(x, y)) {
            assert_eq!(w.entry(x, y), None, "wall ({}, {})", x, y);
        }
    }
}

#[test]
fn goal_on_a_blocked_cell_is_reachable() {
    let mut w = World::new();
    w.add(3, 3, false);
    w.add(3, 3, true);
    w.converge();
    assert_eq!(w.dist(3, 3), Some(0));
    assert_eq!(w.dist(4, 3), Some(1));
}

#[test]
fn iteration_on_an_empty_queue_changes_nothing() {
    let (goals, walls) = scatter(5);
    let mut w = build(&goals, &walls);
    let before: Vec<Option<FieldEntry>> =
        (0..SIDE * SIDE).map(|i| w.entry(i % SIDE, i / SIDE)).collect();
    w.step(1000);
    let after: Vec<Option<FieldEntry>> =
        (0..SIDE * SIDE).map(|i| w.entry(i % SIDE, i / SIDE)).collect();
    assert_eq!(before, after);
    assert!(w.engine.queue_is_empty());
}

#[test]
fn adding_a_goal_never_lengthens_a_distance() {
    let (goals, walls) = scatter(11);
    let mut w = build(&goals, &walls);
    let before: Vec<Option<u32>> = (0..SIDE * SIDE).map(|i| w.dist(i % SIDE, i / SIDE)).collect();
    let mut extra = (30, 30);
    while walls.contains(&extra) {
        extra.0 += 1;
    }
    w.add(extra.0, extra.1, true);
    w.converge();
    for i in 0..SIDE * SIDE {
        if let Some(d) = before[i as usize] {
            let now = w.dist(i % SIDE, i / SIDE).expect("entry lost");
            assert!(now <= d, "cell {} went from {} to {}", i, d, now);
        }
    }
    assert_eq!(w.dist(extra.0, extra.1), Some(0));
}

#[test]
fn ways_are_the_capped_sum_over_nearer_neighbours() {
    let (goals, walls) = scatter(13);
    let w = build(&goals, &walls);
    for y in 0..SIDE {
        for x in 0..SIDE {
            let e = match w.entry(x, y) {
                Some(e) => e,
                None => continue,
            };
            if goals.contains(&(x, y)) {
                assert_eq!(e, FieldEntry { distance: 0, ways: 1 });
                continue;
            }
            let mut sum = 0u64;
            for (dx, dy) in [(1, 0), (0, 1), (-1, 0), (0, -1)] {
                if let Some(n) = w.entry(x + dx, y + dy) {
                    if n.distance + 1 == e.distance {
                        sum += n.ways;
                    }
                }
            }
            assert_eq!(e.ways, sum.min(WAYS_CAP), "cell ({}, {})", x, y);
        }
    }
}

#[test]
fn ways_count_shortest_routes_and_stop_at_the_cap() {
    let mut w = World::new();
    w.add(0, 0, true);
    w.converge();
    assert_eq!(w.entry(1, 0), Some(FieldEntry { distance: 1, ways: 1 }));
    assert_eq!(w.entry(2, 1), Some(FieldEntry { distance: 3, ways: 3 }));
    assert_eq!(w.entry(2, 2), Some(FieldEntry { distance: 4, ways: 6 }));
    assert_eq!(w.entry(12, 12), Some(FieldEntry { distance: 24, ways: 100_000 }));
}

#[test]
fn pathfind_without_any_neighbour_entry_is_none() {
    let mut w = World::new();
    w.add(0, 0, true);
    w.converge();
    assert!(w.engine.pathfind(Cell::new(10, 10)).is_some());
    let empty = World::new();
    assert!(empty.engine.pathfind(Cell::new(10, 10)).is_none());
}

#[test]
fn pathfind_steps_toward_the_single_nearest_neighbour() {
    let mut w = World::new();
    w.add(4, 7, true);
    w.converge();
    for _ in 0..50 {
        let d = w.engine.pathfind(Cell::new(5, 7)).unwrap();
        assert_eq!(d.dir, Cell::new(-1, 0));
        assert_eq!(d.distance, 1);
    }
    let d = w.engine.pathfind(Cell::new(4, 9)).unwrap();
    assert_eq!(d.dir, Cell::new(0, -1));
    assert_eq!(d.distance, 2);
}

#[test]
fn budget_bounds_the_work_per_call() {
    let mut w = World::new();
    w.add(0, 0, true);
    w.step(1);
    assert_eq!(w.dist(0, 0), Some(0));
    assert_eq!(w.dist(1, 0), None);
    assert!(!w.engine.queue_is_empty());
    w.step(0);
    assert_eq!(w.dist(1, 0), None);
    w.converge();
    assert_eq!(w.dist(1, 0), Some(1));
}

#[test]
fn propagation_stays_inside_generated_chunks() {
    let mut w = World::new();
    w.add(0, 0, true);
    w.converge();
    assert_eq!(w.dist(63, 63), Some(126));
    assert_eq!(w.dist(64, 0), None);
    assert_eq!(w.dist(-1, 0), None);
}

#[test]
fn removing_the_goal_clears_the_field() {
    let mut w = corridor();
    let g = w.add(0, 0, true);
    w.converge();
    assert_eq!(w.dist(2, 0), Some(2));
    w.tiles.remove(g);
    w.goals.remove(&g);
    w.engine.entity_removed(g);
    assert_eq!(w.engine.dirty().cells_at(0), vec![Cell::new(0, 0)]);
    w.converge();
    for x in 0..5 {
        assert_eq!(w.dist(x, 0), None);
    }
}

#[test]
fn distances_stop_below_the_bound() {
    let mut w = World::new();
    for x in 0..63 {
        for y in 0..64 {
            if (x % 2 == 1) && !((x % 4 == 1 && y == 63) || (x % 4 == 3 && y == 0)) {
                w.add(x, y, false);
            }
        }
    }
    w.add(0, 0, true);
    w.converge();
    assert_eq!(w.dist(0, 63), Some(63));
    assert_eq!(w.dist(2, 63), Some(65));
    assert_eq!(w.dist(4, 0), Some(130));
    assert_eq!(w.dist(14, 0), Some(518));
    assert_eq!(w.dist(30, 63), Some(975));
    assert_eq!(w.dist(30, 39), Some(999));
    assert_eq!(w.dist(30, 38), None);
    assert_eq!(w.dist(30, 0), None);
}

#[test]
fn changed_footprint_queues_only_the_difference() {
    let mut e = Pathfinding::new();
    e.entity_changed(9, Cell::new(0, 0), Some(Cell::new(2, 1)));
    let first = e.dirty().cells_at(0);
    assert_eq!(first.len(), 2);
    e.entity_changed(9, Cell::new(1, 0), Some(Cell::new(2, 1)));
    let all = e.dirty().cells_at(0);
    let added: Vec<Cell> = all[first.len()..].to_vec();
    assert_eq!(added.len(), 2);
    assert!(added.contains(&Cell::new(0, 0)));
    assert!(added.contains(&Cell::new(2, 0)));
}

#[test]
fn detect_map_updates_handles_removals_then_changes() {
    let mut e = Pathfinding::new();
    e.entity_changed(1, Cell::new(3, 3), None);
    e.entity_changed(2, Cell::new(7, 7), None);
    let before = e.dirty().cells_at(0).len();
    let removed = vec![1u64];
    let changed = vec![MapUpdate { entity: 2, pos: Cell::new(8, 7), size: None }];
    e.detect_map_updates(&removed, &changed);
    let all = e.dirty().cells_at(0);
    let added: Vec<Cell> = all[before..].to_vec();
    assert_eq!(added, vec![Cell::new(3, 3), Cell::new(7, 7), Cell::new(8, 7)]);
}

#[test]
fn nearest_options_lists_the_nearest_neighbours_with_their_routes() {
    let mut w = World::new();
    w.add(12, 10, true);
    w.add(8, 10, true);
    w.converge();
    assert_eq!(w.engine.nearest_options(Cell::new(10, 10)), vec![(0, 1), (2, 1)]);
    assert_eq!(w.engine.nearest_options(Cell::new(10, 12)), vec![(0, 3), (2, 3), (3, 6)]);
    assert!(w.engine.nearest_options(Cell::new(40, 40)).len() > 0);
    assert!(World::new().engine.nearest_options(Cell::new(1, 1)).is_empty());
}

#[test]
fn new_footprint_is_queued_once_per_cell() {
    let mut e = Pathfinding::new();
    let changed = vec![MapUpdate { entity: 4, pos: Cell::new(5, 5), size: Some(Cell::new(2, 3)) }];
    e.detect_map_updates(&vec![], &changed);
    let mut queued = e.dirty().cells_at(0);
    queued.sort_by_key(|c| (c.x, c.y));
    let mut want = Vec::new();
    for x in 5..7 {
        for y in 5..8 {
            want.push(Cell::new(x, y));
        }
    }
    assert_eq!(queued, want);
    let mut one = Pathfinding::new();
    let single = vec![MapUpdate { entity: 9, pos: Cell::new(3, 4), size: None }];
    one.detect_map_updates(&vec![], &single);
    assert_eq!(one.dirty().cells_at(0), vec![Cell::new(3, 4)]);
}
