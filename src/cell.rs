use vstd::prelude::*;

verus! {

/// A grid coordinate; also used for offsets and rectangle sizes.
#[derive(Clone, Copy, Debug, PartialEq, Eq, Structural)]
pub struct Cell {
    pub x: i32,
    pub y: i32,
}

/// The last known occupied rectangle of an entity: the cells
/// `position + (dx, dy)` with `0 <= dx < size.x` and `0 <= dy < size.y`.
#[derive(Clone, Copy, Debug, PartialEq, Eq, Structural)]
pub struct Footprint {
    pub position: Cell,
    pub size: Cell,
}

/// Offset of the `i`-th of the four axis moves: +x, +y, -x, -y.
pub open spec fn move_dx(i: int) -> int {
    if i == 0 {
        1
    } else if i == 2 {
        -1
    } else {
        0
    }
}

pub open spec fn move_dy(i: int) -> int {
    if i == 1 {
        1
    } else if i == 3 {
        -1
    } else {
        0
    }
}

pub open spec fn in_i32(v: int) -> bool {
    i32::MIN <= v <= i32::MAX
}

/// The neighbour of `c` in direction `i`, if its coordinates are representable.
pub open spec fn spec_neighbor(c: Cell, i: int) -> Option<Cell> {
    let nx = c.x + move_dx(i);
    let ny = c.y + move_dy(i);
    if in_i32(nx) && in_i32(ny) {
        Some(Cell { x: nx as i32, y: ny as i32 })
    } else {
        None
    }
}

/// Key of a cell in integer-keyed maps.
pub open spec fn spec_cell_key(c: Cell) -> int {
    c.x as int * 0x1_0000_0000 + (c.y as int + 0x8000_0000)
}

/// The key as stored.
pub open spec fn key_of(c: Cell) -> i64 {
    spec_cell_key(c) as i64
}

pub open spec fn spec_in_footprint(f: Footprint, c: Cell) -> bool {
    f.position.x <= c.x < f.position.x + f.size.x && f.position.y <= c.y < f.position.y
        + f.size.y
}

/// The number of cells of the rectangle.
pub open spec fn footprint_area(f: Footprint) -> int {
    if f.size.x > 0 && f.size.y > 0 {
        f.size.x * f.size.y
    } else {
        0
    }
}

/// Adding an element that is not there keeps a sequence free of duplicates.
pub proof fn lemma_push_distinct<A>(s: Seq<A>, x: A)
    requires
        s.no_duplicates(),
        !s.contains(x),
    ensures
        s.push(x).no_duplicates(),
{
    assert forall|i: int, j: int|
        0 <= i < s.push(x).len() && 0 <= j < s.push(x).len() && i != j implies s.push(x)[i]
        != s.push(x)[j] by {
        if i == s.len() {
            assert(s[j] == s.push(x)[j]);
        } else if j == s.len() {
            assert(s[i] == s.push(x)[i]);
        }
    }
}

/// Every cell of the rectangle has representable coordinates.
pub open spec fn footprint_fits(f: Footprint) -> bool {
    f.position.x + f.size.x <= i32::MAX as int + 1 && f.position.y + f.size.y <= i32::MAX as int
        + 1
}

impl Cell {
    pub fn new(x: i32, y: i32) -> (r: Cell)
        ensures
            r.x == x,
            r.y == y,
    {
        Cell { x, y }
    }

    /// The offset of the `i`-th axis move.
    pub fn move_direction(i: usize) -> (r: Cell)
        requires
            i < 4,
        ensures
            r.x == move_dx(i as int),
            r.y == move_dy(i as int),
    {
        if i == 0 {
            Cell { x: 1, y: 0 }
        } else if i == 1 {
            Cell { x: 0, y: 1 }
        } else if i == 2 {
            Cell { x: -1, y: 0 }
        } else {
            Cell { x: 0, y: -1 }
        }
    }

    /// The neighbour in direction `i`, or `None` at the edge of the coordinate range.
    pub fn neighbor(&self, i: usize) -> (r: Option<Cell>)
        requires
            i < 4,
        ensures
            r == spec_neighbor(*self, i as int),
    {
        let d = Cell::move_direction(i);
        match (self.x.checked_add(d.x), self.y.checked_add(d.y)) {
            (Some(x), Some(y)) => Some(Cell { x, y }),
            _ => None,
        }
    }

    pub fn key(&self) -> (r: i64)
        ensures
            r as int == spec_cell_key(*self),
            r == key_of(*self),
    {
        proof {
            lemma_cell_key_bounds(*self);
        }
        self.x as i64 * 0x1_0000_0000i64 + (self.y as i64 + 0x8000_0000i64)
    }
}

pub proof fn lemma_cell_key_bounds(c: Cell)
    ensures
        i64::MIN <= spec_cell_key(c) <= i64::MAX,
{
    assert(i64::MIN <= c.x as int * 0x1_0000_0000 <= i64::MAX - 0xffff_ffff) by (nonlinear_arith)
        requires
            i32::MIN <= c.x <= i32::MAX,
    ;
}

/// Distinct cells have distinct keys.
pub proof fn lemma_cell_key_injective(a: Cell, b: Cell)
    ensures
        spec_cell_key(a) == spec_cell_key(b) ==> a == b,
{
    if spec_cell_key(a) == spec_cell_key(b) {
        let dx = a.x as int - b.x as int;
        assert(dx * 0x1_0000_0000 == b.y as int - a.y as int);
        assert(dx == 0) by (nonlinear_arith)
            requires
                dx * 0x1_0000_0000 == b.y as int - a.y as int,
                -0x1_0000_0000 < (b.y as int - a.y as int) < 0x1_0000_0000,
        ;
    }
}

/// Distinct cells have distinct stored keys.
pub proof fn lemma_key_of_injective(a: Cell, b: Cell)
    ensures
        key_of(a) == key_of(b) <==> a == b,
{
    lemma_cell_key_bounds(a);
    lemma_cell_key_bounds(b);
    lemma_cell_key_injective(a, b);
}

/// The move opposite to move `i`.
pub open spec fn opposite(i: int) -> int {
    if i < 2 {
        i + 2
    } else {
        i - 2
    }
}

/// Stepping back undoes a step; no cell is its own neighbour.
pub proof fn lemma_neighbor_opposite(c: Cell, i: int)
    requires
        0 <= i < 4,
        spec_neighbor(c, i) is Some,
    ensures
        0 <= opposite(i) < 4,
        spec_neighbor(spec_neighbor(c, i)->Some_0, opposite(i)) == Some(c),
        spec_neighbor(c, i) != Some(c),
{
}

impl Footprint {
    pub fn contains(&self, c: Cell) -> (r: bool)
        ensures
            r == spec_in_footprint(*self, c),
    {
        self.position.x as i64 <= c.x as i64 && (c.x as i64) < self.position.x as i64
            + self.size.x as i64 && self.position.y as i64 <= c.y as i64 && (c.y as i64)
            < self.position.y as i64 + self.size.y as i64
    }

    /// The cells of the rectangle, column by column.
    pub fn cells(&self) -> (r: Vec<Cell>)
        requires
            footprint_fits(*self),
        ensures
            forall|c: Cell| #[trigger] r@.contains(c) <==> spec_in_footprint(*self, c),
            r@.no_duplicates(),
            r@.len() == footprint_area(*self),
    {
        let ghost sy: int = if self.size.y > 0 {
            self.size.y as int
        } else {
            0
        };
        let px = self.position.x;
        let py = self.position.y;
        let mut r: Vec<Cell> = Vec::new();
        let mut dx: i32 = 0;
        while dx < self.size.x
            invariant
                footprint_fits(*self),
                px == self.position.x,
                py == self.position.y,
                0 <= dx,
                self.size.x >= 0 ==> dx <= self.size.x,
                self.size.x <= 0 ==> dx == 0,
                sy == (if self.size.y > 0 {
                    self.size.y as int
                } else {
                    0
                }),
                r@.no_duplicates(),
                r@.len() == dx * sy,
                forall|c: Cell| #[trigger]
                    r@.contains(c) <==> (spec_in_footprint(*self, c) && c.x < px + dx),
            decreases self.size.x - dx,
        {
            let mut dy: i32 = 0;
            while dy < self.size.y
                invariant
                    footprint_fits(*self),
                    px == self.position.x,
                    py == self.position.y,
                    0 <= dx < self.size.x,
                    0 <= dy,
                    self.size.y >= 0 ==> dy <= self.size.y,
                    self.size.y <= 0 ==> dy == 0,
                    sy == (if self.size.y > 0 {
                        self.size.y as int
                    } else {
                        0
                    }),
                    r@.no_duplicates(),
                    r@.len() == dx * sy + dy,
                    forall|c: Cell| #[trigger]
                        r@.contains(c) <==> (spec_in_footprint(*self, c) && (c.x < px + dx || (c.x
                            == px + dx && c.y < py + dy))),
                decreases self.size.y - dy,
            {
                let c = Cell { x: px + dx, y: py + dy };
                let ghost before = r@;
                proof {
                    lemma_push_distinct(before, c);
                }
                r.push(c);
                assert forall|d: Cell| #[trigger]
                    r@.contains(d) <==> (spec_in_footprint(*self, d) && (d.x < px + dx || (d.x
                        == px + dx && d.y < py + dy + 1))) by {
                    if d == c {
                        assert(r@[before.len() as int] == c);
                    }
                    if before.contains(d) {
                        let j = choose|j: int| 0 <= j < before.len() && before[j] == d;
                        assert(r@[j] == d);
                    }
                    if r@.contains(d) && d != c {
                        let j = choose|j: int| 0 <= j < r@.len() && r@[j] == d;
                        assert(before[j] == d);
                    }
                }
                dy = dy + 1;
            }
            assert(r@.len() == (dx + 1) * sy) by (nonlinear_arith)
                requires
                    r@.len() == dx * sy + dy,
                    dy == sy,
            ;
            dx = dx + 1;
        }
        r
    }
}

} // verus!
