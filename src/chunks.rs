use vstd::prelude::*;

use crate::cell::{spec_cell_key, Cell};

verus! {

broadcast use vstd::std_specs::hash::group_hash_axioms;

/// Side of a square chunk of cells.
pub const CHUNK_SIZE: i32 = 64;

/// The chunk that holds `c`.
pub open spec fn spec_chunk_of(c: Cell) -> Cell {
    Cell { x: (c.x as int / CHUNK_SIZE as int) as i32, y: (c.y as int / CHUNK_SIZE as int) as i32 }
}

/// The chunks of the grid that exist so far; pathfinding does not spread
/// beyond them.
pub struct GeneratedChunks {
    chunks: std::collections::HashSet<i64>,
}

/// A chunk that has just come into existence.
#[derive(Clone, Copy, Debug, PartialEq, Eq, Structural)]
pub struct GenerateChunk(pub Cell);

/// A rectangle of cells, `min` inclusive and `max` exclusive.
#[derive(Clone, Copy, Debug, PartialEq, Eq, Structural)]
pub struct Rect {
    pub min: Cell,
    pub max: Cell,
}

impl GeneratedChunks {
    /// The chunk `k` exists.
    pub closed spec fn has_chunk(&self, k: Cell) -> bool {
        self.chunks@.contains(spec_cell_key(k) as i64)
    }

    /// `c` lies in an existing chunk.
    pub open spec fn generated(&self, c: Cell) -> bool {
        self.has_chunk(spec_chunk_of(c))
    }

    pub fn new() -> (r: GeneratedChunks)
        ensures
            forall|k: Cell| !#[trigger] r.has_chunk(k),
    {
        GeneratedChunks { chunks: std::collections::HashSet::new() }
    }

    pub fn is_generated(&self, pos: Cell) -> (r: bool)
        ensures
            r == self.generated(pos),
    {
        let cx = pos.x.checked_div_euclid(CHUNK_SIZE).unwrap();
        let cy = pos.y.checked_div_euclid(CHUNK_SIZE).unwrap();
        let k = Cell { x: cx, y: cy };
        self.chunks.contains(&k.key())
    }

    /// Marks `chunk` as existing. Returns the event to announce when it is
    /// new, `None` when it existed already.
    pub fn generate(&mut self, chunk: Cell) -> (r: Option<GenerateChunk>)
        ensures
            r == (if old(self).has_chunk(chunk) {
                None
            } else {
                Some(GenerateChunk(chunk))
            }),
            forall|k: Cell| #[trigger] final(self).has_chunk(k) == (old(self).has_chunk(k) || k == chunk),
    {
        let key = chunk.key();
        if self.chunks.contains(&key) {
            return None;
        }
        self.chunks.insert(key);
        proof {
            assert forall|k: Cell| #[trigger] self.has_chunk(k) == (old(self).has_chunk(k) || k == chunk) by {
                crate::cell::lemma_cell_key_bounds(k);
                crate::cell::lemma_cell_key_injective(k, chunk);
            }
        }
        Some(GenerateChunk(chunk))
    }
}

impl GenerateChunk {
    /// The cells of the chunk.
    pub fn rect(&self) -> (r: Rect)
        requires
            (self.0.x as int + 1) * CHUNK_SIZE <= i32::MAX,
            (self.0.y as int + 1) * CHUNK_SIZE <= i32::MAX,
            self.0.x as int * CHUNK_SIZE >= i32::MIN,
            self.0.y as int * CHUNK_SIZE >= i32::MIN,
        ensures
            r.min.x == self.0.x * CHUNK_SIZE,
            r.min.y == self.0.y * CHUNK_SIZE,
            r.max.x == (self.0.x + 1) * CHUNK_SIZE,
            r.max.y == (self.0.y + 1) * CHUNK_SIZE,
    {
        Rect {
            min: Cell { x: self.0.x * CHUNK_SIZE, y: self.0.y * CHUNK_SIZE },
            max: Cell { x: (self.0.x + 1) * CHUNK_SIZE, y: (self.0.y + 1) * CHUNK_SIZE },
        }
    }
}

} // verus!
