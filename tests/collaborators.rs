use std::collections::HashSet;

use flowfield::cell::{Cell, Footprint};
use flowfield::chunks::{GenerateChunk, GeneratedChunks, CHUNK_SIZE};
use flowfield::detect::MapUpdate;
use flowfield::queue::{DirtyEntry, DirtyQueue};
use flowfield::registry::GoalKinds;
use flowfield::tile_map::TileMap;

#[test]
fn queue_hands_out_lowest_priority_first() {
    let mut q = DirtyQueue::new();
    assert!(q.is_empty());
    q.push(DirtyEntry { priority: 3, cell: Cell::new(1, 1) });
    q.push(DirtyEntry { priority: 1, cell: Cell::new(2, 2) });
    q.push(DirtyEntry { priority: 1, cell: Cell::new(3, 3) });
    assert!(!q.is_empty());
    assert_eq!(q.pop(), Some(DirtyEntry { priority: 1, cell: Cell::new(3, 3) }));
    q.push(DirtyEntry { priority: 0, cell: Cell::new(4, 4) });
    assert_eq!(q.pop(), Some(DirtyEntry { priority: 0, cell: Cell::new(4, 4) }));
    assert_eq!(q.pop(), Some(DirtyEntry { priority: 1, cell: Cell::new(2, 2) }));
    assert_eq!(q.pop(), Some(DirtyEntry { priority: 3, cell: Cell::new(1, 1) }));
    assert_eq!(q.pop(), None);
    assert!(q.is_empty());
    q.push(DirtyEntry { priority: 2, cell: Cell::new(5, 5) });
    assert_eq!(q.cells_at(2), vec![Cell::new(5, 5)]);
    assert_eq!(q.pop(), Some(DirtyEntry { priority: 2, cell: Cell::new(5, 5) }));
}

#[test]
fn chunks_use_euclidean_division() {
    let mut g = GeneratedChunks::new();
    assert!(!g.is_generated(Cell::new(-1, -1)));
    assert_eq!(g.generate(Cell::new(-1, -1)), Some(GenerateChunk(Cell::new(-1, -1))));
    assert_eq!(g.generate(Cell::new(-1, -1)), None);
    assert!(g.is_generated(Cell::new(-1, -1)));
    assert!(g.is_generated(Cell::new(-64, -64)));
    assert!(!g.is_generated(Cell::new(-65, -1)));
    assert!(!g.is_generated(Cell::new(0, -1)));
    assert!(!g.is_generated(Cell::new(0, 0)));
}

#[test]
fn chunk_rect_spans_one_chunk() {
    let r = GenerateChunk(Cell::new(1, -1)).rect();
    assert_eq!(r.min, Cell::new(64, -64));
    assert_eq!(r.max, Cell::new(128, 0));
    assert_eq!(CHUNK_SIZE, 64);
}

#[test]
fn tile_map_follows_moves_and_removals() {
    let mut t = TileMap::new();
    t.place(7, Cell::new(1, 1), Some(Cell::new(2, 2)));
    t.place(8, Cell::new(2, 2), None);
    assert_eq!(t.entities_at(Cell::new(1, 2)), vec![7]);
    let both: HashSet<u64> = t.entities_at(Cell::new(2, 2)).into_iter().collect();
    assert_eq!(both, HashSet::from([7, 8]));
    t.place(7, Cell::new(5, 5), None);
    assert!(t.entities_at(Cell::new(1, 1)).is_empty());
    assert_eq!(t.entities_at(Cell::new(2, 2)), vec![8]);
    assert_eq!(t.entities_at(Cell::new(5, 5)), vec![7]);
    t.remove(7);
    assert!(t.entities_at(Cell::new(5, 5)).is_empty());
    t.remove(7);
    assert_eq!(t.entities_at(Cell::new(2, 2)), vec![8]);
}

#[test]
fn footprint_lists_its_cells() {
    let f = Footprint { position: Cell::new(-1, 4), size: Cell::new(2, 3) };
    let cells = f.cells();
    assert_eq!(cells.len(), 6);
    for c in &cells {
        assert!(f.contains(*c));
    }
    assert!(cells.contains(&Cell::new(0, 6)));
    assert!(!f.contains(Cell::new(1, 4)));
    let empty = Footprint { position: Cell::new(0, 0), size: Cell::new(0, 5) };
    assert!(empty.cells().is_empty());
}

#[test]
fn neighbours_stop_at_the_coordinate_range() {
    let c = Cell::new(i32::MAX, 0);
    assert_eq!(c.neighbor(0), None);
    assert_eq!(c.neighbor(1), Some(Cell::new(i32::MAX, 1)));
    assert_eq!(c.neighbor(2), Some(Cell::new(i32::MAX - 1, 0)));
    assert_eq!(Cell::new(0, i32::MIN).neighbor(3), None);
    assert_ne!(Cell::new(0, 1).key(), Cell::new(1, 0).key());
    assert_ne!(Cell::new(-1, i32::MAX).key(), Cell::new(0, i32::MIN).key());
}

#[test]
fn goal_kinds_run_independently() {
    let mut kinds = GoalKinds::new();
    let a = kinds.register_pathfinding_towards();
    let b = kinds.register_pathfinding_towards();
    assert_eq!((a, b), (0, 1));
    let mut chunks = GeneratedChunks::new();
    chunks.generate(Cell::new(0, 0));
    let mut tiles = TileMap::new();
    tiles.place(1, Cell::new(2, 2), None);
    let goals_a: HashSet<u64> = HashSet::from([1]);
    let blocking: HashSet<u64> = HashSet::new();
    let changed = vec![MapUpdate { entity: 1, pos: Cell::new(2, 2), size: None }];
    for _ in 0..20 {
        kinds.tick(a, &vec![], &changed, &tiles, &goals_a, &blocking, &chunks, 1000);
        kinds.tick(b, &vec![], &vec![], &tiles, &HashSet::new(), &blocking, &chunks, 1000);
    }
    assert_eq!(kinds.get(a).get(Cell::new(4, 2)).map(|e| e.distance), Some(2));
    assert_eq!(kinds.get(b).get(Cell::new(4, 2)), None);
    assert!(kinds.get(b).queue_is_empty());
}

#[test]
fn an_entity_is_listed_once_per_cell() {
    let mut t = TileMap::new();
    t.place(3, Cell::new(0, 0), Some(Cell::new(2, 2)));
    t.place(3, Cell::new(1, 1), Some(Cell::new(2, 2)));
    t.place(3, Cell::new(1, 1), Some(Cell::new(2, 2)));
    assert_eq!(t.entities_at(Cell::new(1, 1)), vec![3]);
    assert!(t.entities_at(Cell::new(0, 0)).is_empty());
    assert_eq!(t.entities_at(Cell::new(2, 2)), vec![3]);
}
